//! Segments of probe slots for chunks.

use crate::math::{div_floor, IVec3, UVec3};
use vstd::prelude::*;

verus! {

/// Edge of a chunk, in voxels.
pub const DDGI_CHUNK_VOXELS: i32 = 256;

/// Cells of the chunk level along a chunk's edge.
pub const DDGI_CHUNK_AXIS: i32 = 16;

/// Slots of a chunk's segment.
pub const DDGI_CHUNK_SLOTS: u32 = 4096;

/// Base of a chunk that has no segment.
pub const DDGI_CHUNK_NO_BASE: u32 = 0xFFFF_FFFF;

/// The multiple of `a` at or below `v`.
pub fn align_down(v: i32, a: i32) -> (r: i32)
    requires
        a > 0,
        (v as int / a as int) * a >= i32::MIN,
    ensures
        r == (v as int / a as int) * a,
        r <= v < r + a,
{
    let q: i32 = div_floor(v, a);
    proof {
        vstd::arithmetic::div_mod::lemma_fundamental_div_mod(v as int, a as int);
        vstd::arithmetic::mul::lemma_mul_is_commutative(a as int, q as int);
    }
    q * a
}

/// A grid of chunks, in chunks.
#[derive(Debug, Clone, Copy, PartialEq, Eq, Structural)]
pub struct DdgiChunkGeom {
    pub origin: IVec3,
    pub dims: UVec3,
}

/// First chunk of the grid along an axis of the world's box: one below the lowest.
pub open spec fn first_chunk(lo: int) -> int {
    lo / 256 - 1
}

/// Chunks of the grid along an axis: those that cover the box, and two more.
pub open spec fn chunk_span(lo: int, hi: int) -> int {
    let span = hi - lo / 256 * 256;
    (if span > 1 {
        (span + 255) / 256
    } else {
        1
    }) + 2
}

/// The length of the box, in whole chunks, is a number of voxels.
pub open spec fn axis_fits(lo: int, hi: int) -> bool {
    i32::MIN <= hi - lo / 256 * 256 && hi - lo / 256 * 256 + 255 <= i32::MAX
}

fn axis_geom(lo: i32, hi: i32) -> (r: (i32, u32))
    requires
        axis_fits(lo as int, hi as int),
    ensures
        r.0 == first_chunk(lo as int),
        r.1 == chunk_span(lo as int, hi as int),
{
    let c: i32 = DDGI_CHUNK_VOXELS;
    let aligned: i32 = align_down(lo, c);
    let span0: i32 = hi - aligned;
    let span: i32 = if span0 > 1 { span0 } else { 1 };
    let n: i32 = (span + (c - 1)) / c;
    (aligned / c - 1, (if n > 1 { n } else { 1 }) as u32 + 2)
}

impl Default for DdgiChunkGeom {
    fn default() -> (r: Self)
        ensures
            r.origin == (IVec3 { x: 0, y: 0, z: 0 }),
            r.dims == (UVec3 { x: 1, y: 1, z: 1 }),
    {
        DdgiChunkGeom { origin: IVec3::splat(0), dims: UVec3 { x: 1, y: 1, z: 1 } }
    }
}

impl DdgiChunkGeom {
    /// Number of chunks.
    pub open spec fn count(self) -> int {
        self.dims.x * self.dims.y * self.dims.z
    }

    /// There is no chunk.
    pub open spec fn has_none(self) -> bool {
        self.dims.x == 0 || self.dims.y == 0 || self.dims.z == 0
    }

    /// Chunk `cc` lies in the grid.
    pub open spec fn has(self, cc: IVec3) -> bool {
        &&& 0 <= cc.x - self.origin.x < self.dims.x
        &&& 0 <= cc.y - self.origin.y < self.dims.y
        &&& 0 <= cc.z - self.origin.z < self.dims.z
    }

    /// Number of chunk `cc` in the grid: `x` runs fastest.
    pub open spec fn number(self, cc: IVec3) -> int {
        (cc.x - self.origin.x) + (cc.y - self.origin.y) * self.dims.x + (cc.z - self.origin.z) * (
        self.dims.x * self.dims.y)
    }

    /// Every chunk of the grid has coordinates.
    pub open spec fn fits(self) -> bool {
        &&& self.origin.x + self.dims.x - 1 <= i32::MAX
        &&& self.origin.y + self.dims.y - 1 <= i32::MAX
        &&& self.origin.z + self.dims.z - 1 <= i32::MAX
        &&& self.count() <= u32::MAX
    }

    /// The grid around a box: the chunks that cover it, one below and one above.
    pub open spec fn is_around(self, lo: IVec3, hi: IVec3) -> bool {
        &&& self.origin.x == first_chunk(lo.x as int)
        &&& self.origin.y == first_chunk(lo.y as int)
        &&& self.origin.z == first_chunk(lo.z as int)
        &&& self.dims.x == chunk_span(lo.x as int, hi.x as int)
        &&& self.dims.y == chunk_span(lo.y as int, hi.y as int)
        &&& self.dims.z == chunk_span(lo.z as int, hi.z as int)
    }

    /// The grid around the world's box.
    pub fn from_world(aabb_min: IVec3, aabb_max: IVec3) -> (r: Self)
        requires
            axis_fits(aabb_min.x as int, aabb_max.x as int),
            axis_fits(aabb_min.y as int, aabb_max.y as int),
            axis_fits(aabb_min.z as int, aabb_max.z as int),
        ensures
            r.is_around(aabb_min, aabb_max),
    {
        let (ox, dx): (i32, u32) = axis_geom(aabb_min.x, aabb_max.x);
        let (oy, dy): (i32, u32) = axis_geom(aabb_min.y, aabb_max.y);
        let (oz, dz): (i32, u32) = axis_geom(aabb_min.z, aabb_max.z);
        DdgiChunkGeom { origin: IVec3::new(ox, oy, oz), dims: UVec3 { x: dx, y: dy, z: dz } }
    }

    /// The grid reaches past every chunk that the box touches.
    pub proof fn lemma_world_is_inside(aabb_min: IVec3, aabb_max: IVec3, g: Self, v: IVec3)
        requires
            axis_fits(aabb_min.x as int, aabb_max.x as int),
            axis_fits(aabb_min.y as int, aabb_max.y as int),
            axis_fits(aabb_min.z as int, aabb_max.z as int),
            g.is_around(aabb_min, aabb_max),
            aabb_min.x <= v.x <= aabb_max.x,
            aabb_min.y <= v.y <= aabb_max.y,
            aabb_min.z <= v.z <= aabb_max.z,
        ensures
            g.has(
                IVec3 {
                    x: (v.x as int / 256) as i32,
                    y: (v.y as int / 256) as i32,
                    z: (v.z as int / 256) as i32,
                },
            ),
    {
    }

    pub fn len(&self) -> (r: u32)
        requires
            self.count() <= u32::MAX,
        ensures
            r == self.count(),
    {
        if self.dims.z == 0 {
            return 0;
        }
        proof {
            lemma_partial_product(self.dims);
        }
        self.dims.x * self.dims.y * self.dims.z
    }

    pub fn is_empty(&self) -> (r: bool)
        ensures
            r == self.has_none(),
            r == (self.dims.x == 0 || self.dims.y == 0 || self.dims.z == 0),
    {
        self.dims.x == 0 || self.dims.y == 0 || self.dims.z == 0
    }

    /// Number of a chunk; `None` outside the grid.
    pub fn linear(&self, cc: IVec3) -> (r: Option<u32>)
        requires
            self.count() <= u32::MAX,
        ensures
            r == (if self.has(cc) {
                Some(self.number(cc) as u32)
            } else {
                None
            }),
            self.has(cc) ==> 0 <= self.number(cc) < self.count(),
    {
        let x: i64 = cc.x as i64 - self.origin.x as i64;
        let y: i64 = cc.y as i64 - self.origin.y as i64;
        let z: i64 = cc.z as i64 - self.origin.z as i64;
        if x < 0 || y < 0 || z < 0 || x >= self.dims.x as i64 || y >= self.dims.y as i64 || z
            >= self.dims.z as i64 {
            return None;
        }
        proof {
            lemma_partial_product(self.dims);
            lemma_number_bound(self.dims, x as int, y as int, z as int);
        }
        Some(x as u32 + y as u32 * self.dims.x + z as u32 * (self.dims.x * self.dims.y))
    }

    /// The chunk with number `idx`.
    pub open spec fn chunk_of(self, idx: int) -> IVec3 {
        let (dx, dy) = (self.dims.x as int, self.dims.y as int);
        IVec3 {
            x: (self.origin.x + idx % dx) as i32,
            y: (self.origin.y + idx / dx % dy) as i32,
            z: (self.origin.z + idx / (dx * dy)) as i32,
        }
    }

    /// The chunk with number `idx`.
    pub fn coord(&self, idx: u32) -> (r: IVec3)
        requires
            self.fits(),
            idx < self.count(),
        ensures
            r == self.chunk_of(idx as int),
    {
        proof {
            lemma_partial_product(self.dims);
            lemma_split(self.dims, idx as int);
        }
        let dx: u32 = self.dims.x;
        let dy: u32 = self.dims.y;
        IVec3::new(
            (self.origin.x as i64 + (idx % dx) as i64) as i32,
            (self.origin.y as i64 + (idx / dx % dy) as i64) as i32,
            (self.origin.z as i64 + (idx / (dx * dy)) as i64) as i32,
        )
    }

    /// Numbers and chunks of the grid belong together one to one.
    pub proof fn lemma_numbers(self, cc: IVec3, idx: int)
        requires
            self.fits(),
        ensures
            self.has(cc) ==> 0 <= self.number(cc) < self.count() && self.chunk_of(self.number(cc)) == cc,
            0 <= idx < self.count() ==> self.has(self.chunk_of(idx)) && self.number(self.chunk_of(idx))
                == idx,
    {
        lemma_partial_product(self.dims);
        let (dx, dy) = (self.dims.x as int, self.dims.y as int);
        if self.has(cc) {
            let x = cc.x - self.origin.x;
            let y = cc.y - self.origin.y;
            let z = cc.z - self.origin.z;
            lemma_number_bound(self.dims, x, y, z);
            lemma_unique(dx, dy, x, y, z);
        }
        if 0 <= idx < self.count() {
            lemma_split(self.dims, idx);
        }
    }
}

/// Products of the grid's edges stay below the number of chunks.
pub(crate) proof fn lemma_partial_product(d: UVec3)
    requires
        d.x * d.y * d.z <= u32::MAX,
    ensures
        d.z >= 1 ==> 0 <= d.x * d.y <= d.x * d.y * d.z,
        d.x * d.y <= u64::MAX,
{
    assert(d.z >= 1 ==> 0 <= d.x * d.y <= d.x * d.y * d.z) by (nonlinear_arith)
        requires
            d.x >= 0,
            d.y >= 0,
    ;
    assert(d.x * d.y <= 0xFFFF_FFFF * 0xFFFF_FFFF) by (nonlinear_arith)
        requires
            0 <= d.x <= 0xFFFF_FFFF,
            0 <= d.y <= 0xFFFF_FFFF,
    ;
}

proof fn lemma_number_bound(d: UVec3, x: int, y: int, z: int)
    requires
        0 <= x < d.x,
        0 <= y < d.y,
        0 <= z < d.z,
    ensures
        0 <= y * d.x,
        0 <= z * (d.x * d.y),
        0 <= x + y * d.x < d.x * d.y,
        0 <= x + y * d.x + z * (d.x * d.y) < d.x * d.y * d.z,
{
    assert(0 <= x + y * d.x < d.x * d.y && 0 <= y * d.x) by (nonlinear_arith)
        requires
            0 <= x < d.x,
            0 <= y < d.y,
    ;
    let n = d.x * d.y;
    let m = x + y * d.x;
    assert(0 <= m + z * n < n * d.z && 0 <= z * n) by (nonlinear_arith)
        requires
            0 <= m < n,
            0 <= z < d.z,
    ;
}

proof fn lemma_unique(dx: int, dy: int, x: int, y: int, z: int)
    requires
        0 <= x < dx,
        0 <= y < dy,
        0 <= z,
    ensures
        (x + y * dx + z * (dx * dy)) % dx == x,
        (x + y * dx + z * (dx * dy)) / dx % dy == y,
        (x + y * dx + z * (dx * dy)) / (dx * dy) == z,
{
    let n = x + y * dx + z * (dx * dy);
    let q = y + z * dy;
    assert(n == q * dx + x) by (nonlinear_arith)
        requires
            n == x + y * dx + z * (dx * dy),
            q == y + z * dy,
    ;
    vstd::arithmetic::div_mod::lemma_fundamental_div_mod_converse(n, dx, q, x);
    assert(q == z * dy + y);
    vstd::arithmetic::div_mod::lemma_fundamental_div_mod_converse(q, dy, z, y);
    let r = x + y * dx;
    assert(0 <= r < dx * dy) by (nonlinear_arith)
        requires
            0 <= x < dx,
            0 <= y < dy,
            r == x + y * dx,
    ;
    assert(n == z * (dx * dy) + r);
    vstd::arithmetic::div_mod::lemma_fundamental_div_mod_converse(n, dx * dy, z, r);
}

proof fn lemma_split(d: UVec3, i: int)
    requires
        0 <= i < d.x * d.y * d.z,
    ensures
        d.x > 0,
        d.y > 0,
        d.x * d.y > 0,
        0 <= i % (d.x as int) < d.x,
        0 <= i / (d.x as int) % (d.y as int) < d.y,
        0 <= i / (d.x * d.y) < d.z,
        i == i % (d.x as int) + (i / (d.x as int) % (d.y as int)) * d.x + (i / (d.x * d.y)) * (d.x
            * d.y),
{
    let (dx, dy, dz) = (d.x as int, d.y as int, d.z as int);
    assert(dx > 0 && dy > 0 && dz > 0) by (nonlinear_arith)
        requires
            0 < dx * dy * dz,
            dx >= 0,
            dy >= 0,
            dz >= 0,
    ;
    let n = dx * dy;
    assert(n > 0) by (nonlinear_arith)
        requires
            dx > 0,
            dy > 0,
            n == dx * dy,
    ;
    let q = i / dx;
    vstd::arithmetic::div_mod::lemma_fundamental_div_mod(i, dx);
    vstd::arithmetic::div_mod::lemma_fundamental_div_mod(q, dy);
    vstd::arithmetic::div_mod::lemma_div_denominator(i, dx, dy);
    assert(q / dy == i / n);
    vstd::arithmetic::div_mod::lemma_fundamental_div_mod(i, n);
    let z = i / n;
    let y = q % dy;
    let x = i % dx;
    assert(i == x + y * dx + z * n) by (nonlinear_arith)
        requires
            i == dx * q + x,
            q == dy * z + y,
            n == dx * dy,
    ;
    assert(q >= 0) by {
        vstd::arithmetic::div_mod::lemma_div_pos_is_pos(i, dx);
    }
    assert(0 <= z < dz) by {
        vstd::arithmetic::div_mod::lemma_div_pos_is_pos(i, n);
        assert(z < dz) by (nonlinear_arith)
            requires
                i < n * dz,
                i == n * z + i % n,
                0 <= i % n,
                n > 0,
        ;
    }
}

/// Segments in use and free, as a pool holds them.
pub struct PoolModel {
    pub bases: Seq<u32>,
    pub free: Seq<u32>,
    pub next_base: int,
}

impl PoolModel {
    /// The last freed segment goes to chunk `l`, or else a new one.
    pub open spec fn grant(self, l: int) -> PoolModel {
        if self.free.len() > 0 {
            PoolModel {
                bases: self.bases.update(l, self.free.last()),
                free: self.free.drop_last(),
                next_base: self.next_base,
            }
        } else {
            PoolModel {
                bases: self.bases.update(l, self.next_base as u32),
                free: self.free,
                next_base: self.next_base + DDGI_CHUNK_SLOTS,
            }
        }
    }

    /// The segment of chunk `l` becomes free.
    pub open spec fn release(self, l: int) -> PoolModel {
        PoolModel {
            bases: self.bases.update(l, DDGI_CHUNK_NO_BASE),
            free: self.free.push(self.bases[l]),
            next_base: self.next_base,
        }
    }

    /// Chunks below `n` that need a segment and have none get one, in order.
    pub open spec fn granted(self, want: Seq<bool>, n: nat) -> PoolModel
        decreases n,
    {
        if n == 0 {
            self
        } else {
            let p = self.granted(want, (n - 1) as nat);
            if want[n - 1] && p.bases[n - 1] == DDGI_CHUNK_NO_BASE {
                p.grant(n - 1)
            } else {
                p
            }
        }
    }

    /// Chunks below `n` that have a segment and need none give it back, in order.
    pub open spec fn released(self, want: Seq<bool>, n: nat) -> PoolModel
        decreases n,
    {
        if n == 0 {
            self
        } else {
            let p = self.released(want, (n - 1) as nat);
            if !want[n - 1] && p.bases[n - 1] != DDGI_CHUNK_NO_BASE {
                p.release(n - 1)
            } else {
                p
            }
        }
    }

    /// The segment that starts at slot `s` is in use or free.
    pub open spec fn holds(self, s: int) -> bool {
        ||| exists|l: int| 0 <= l < self.bases.len() && #[trigger] self.bases[l] == s
        ||| exists|k: int| 0 <= k < self.free.len() && #[trigger] self.free[k] == s
    }

    /// No segment is in use twice, in use and free, or free twice, and they are all the segments below
    /// the mark.
    pub open spec fn wf(self) -> bool {
        &&& forall|s: int|
            0 <= s < self.next_base && s % 4096 == 0 ==> #[trigger] self.holds(s)
        &&& self.next_base <= 4096 * self.bases.len()
        &&& self.next_base == 4096 * (in_use(self.bases, self.bases.len()) + self.free.len())
        &&& forall|l: int|
            0 <= l < self.bases.len() && #[trigger] self.bases[l] != DDGI_CHUNK_NO_BASE
                ==> self.bases[l] % 4096 == 0 && self.bases[l] < self.next_base
        &&& forall|k: int|
            0 <= k < self.free.len() ==> #[trigger] self.free[k] % 4096 == 0 && self.free[k]
                < self.next_base
        &&& forall|l: int, m: int|
            0 <= l < m < self.bases.len() && #[trigger] self.bases[l] != DDGI_CHUNK_NO_BASE
                ==> #[trigger] self.bases[m] != self.bases[l]
        &&& forall|k: int, j: int|
            0 <= k < j < self.free.len() ==> #[trigger] self.free[k] != #[trigger] self.free[j]
        &&& forall|l: int, k: int|
            0 <= l < self.bases.len() && 0 <= k < self.free.len() ==> #[trigger] self.bases[l]
                != #[trigger] self.free[k]
    }
}

/// Chunks below `n` with a segment.
pub open spec fn in_use(bases: Seq<u32>, n: nat) -> int
    decreases n,
{
    if n == 0 {
        0
    } else {
        in_use(bases, (n - 1) as nat) + (if bases[n - 1] != DDGI_CHUNK_NO_BASE {
            1int
        } else {
            0
        })
    }
}

proof fn lemma_in_use_bound(bases: Seq<u32>, n: nat)
    ensures
        0 <= in_use(bases, n) <= n,
    decreases n,
{
    if n > 0 {
        lemma_in_use_bound(bases, (n - 1) as nat);
    }
}

proof fn lemma_in_use_update(bases: Seq<u32>, l: int, b: u32, n: nat)
    requires
        n <= bases.len(),
        0 <= l < bases.len(),
    ensures
        in_use(bases.update(l, b), n) == in_use(bases, n) + (if l < n {
            (if b != DDGI_CHUNK_NO_BASE {
                1int
            } else {
                0
            }) - (if bases[l] != DDGI_CHUNK_NO_BASE {
                1int
            } else {
                0
            })
        } else {
            0
        }),
    decreases n,
{
    if n > 0 {
        lemma_in_use_update(bases, l, b, (n - 1) as nat);
    }
}

/// A chunk without a segment leaves room below the bound.
proof fn lemma_in_use_free(bases: Seq<u32>, l: int, n: nat)
    requires
        0 <= l < n <= bases.len(),
        bases[l] == DDGI_CHUNK_NO_BASE,
    ensures
        in_use(bases, n) < n,
    decreases n,
{
    lemma_in_use_bound(bases, (n - 1) as nat);
    if l < n - 1 {
        lemma_in_use_free(bases, l, (n - 1) as nat);
    }
}

proof fn lemma_grant(p: PoolModel, l: int)
    requires
        p.wf(),
        0 <= l < p.bases.len(),
        p.bases[l] == DDGI_CHUNK_NO_BASE,
        4096 * p.bases.len() <= u32::MAX,
    ensures
        p.grant(l).wf(),
        p.grant(l).bases[l] != DDGI_CHUNK_NO_BASE,
        p.grant(l).next_base <= u32::MAX,
        p.free.len() == 0 ==> p.next_base + 4096 <= u32::MAX,
{
    let q = p.grant(l);
    assert forall|s: int| 0 <= s < q.next_base && s % 4096 == 0 implies #[trigger] q.holds(s) by {
        assert(q.bases[l] == q.bases[l]);
        if s < p.next_base {
            assert(p.holds(s));
            if exists|i: int| 0 <= i < p.bases.len() && #[trigger] p.bases[i] == s {
                let i = choose|i: int| 0 <= i < p.bases.len() && #[trigger] p.bases[i] == s;
                assert(i != l) by {
                    assert(DDGI_CHUNK_NO_BASE % 4096 != 0);
                }
                assert(q.bases[i] == s);
            } else {
                let k = choose|k: int| 0 <= k < p.free.len() && #[trigger] p.free[k] == s;
                if k < p.free.len() - 1 {
                    assert(q.free[k] == s);
                } else {
                    assert(q.bases[l] == s);
                }
            }
        } else {
            assert(p.next_base % 4096 == 0);
            assert(s == p.next_base);
            assert(q.bases[l] == s);
        }
    }
    lemma_in_use_free(p.bases, l, p.bases.len());
    lemma_in_use_bound(p.bases, p.bases.len());
    lemma_in_use_update(p.bases, l, q.bases[l], p.bases.len());
    if p.free.len() > 0 {
        assert(p.free.last() == p.free[p.free.len() - 1]);
        assert forall|i: int, m: int| 0 <= i < m < q.bases.len() && #[trigger] q.bases[i]
            != DDGI_CHUNK_NO_BASE implies #[trigger] q.bases[m] != q.bases[i] by {
            if i == l {
                assert(p.bases[m] != p.free[p.free.len() - 1]);
            } else if m == l {
                assert(p.bases[i] != p.free[p.free.len() - 1]);
            } else {
                assert(p.bases[m] != p.bases[i]);
            }
        }
    } else {
        assert forall|i: int, m: int| 0 <= i < m < q.bases.len() && #[trigger] q.bases[i]
            != DDGI_CHUNK_NO_BASE implies #[trigger] q.bases[m] != q.bases[i] by {
            if i != l && m != l {
                assert(p.bases[m] != p.bases[i]);
            } else if i == l {
                if p.bases[m] != DDGI_CHUNK_NO_BASE {
                    assert(p.bases[m] < p.next_base);
                }
            } else {
                assert(p.bases[i] < p.next_base);
            }
        }
    }
}

proof fn lemma_release(p: PoolModel, l: int)
    requires
        p.wf(),
        0 <= l < p.bases.len(),
        p.bases[l] != DDGI_CHUNK_NO_BASE,
    ensures
        p.release(l).wf(),
{
    let q = p.release(l);
    assert forall|s: int| 0 <= s < q.next_base && s % 4096 == 0 implies #[trigger] q.holds(s) by {
        assert(p.holds(s));
        if exists|i: int| 0 <= i < p.bases.len() && #[trigger] p.bases[i] == s {
            let i = choose|i: int| 0 <= i < p.bases.len() && #[trigger] p.bases[i] == s;
            if i == l {
                assert(q.free[p.free.len() as int] == s);
            } else {
                assert(q.bases[i] == s);
            }
        } else {
            let k = choose|k: int| 0 <= k < p.free.len() && #[trigger] p.free[k] == s;
            assert(q.free[k] == s);
        }
    }
    lemma_in_use_update(p.bases, l, DDGI_CHUNK_NO_BASE, p.bases.len());
    assert forall|i: int, k: int| 0 <= i < q.bases.len() && 0 <= k < q.free.len() implies
        #[trigger] q.bases[i] != #[trigger] q.free[k] by {
        if k < p.free.len() {
            assert(p.bases[i] != p.free[k]);
            if i == l {
                assert(p.free[k] < p.next_base && p.next_base % 4096 == 0 && p.free[k] % 4096 == 0);
                assert(q.bases[i] % 4096 != 0);
            }
        } else if i != l {
            if i < l {
                assert(p.bases[i] != DDGI_CHUNK_NO_BASE ==> p.bases[l] != p.bases[i]);
            } else {
                assert(p.bases[i] != p.bases[l]);
            }
        }
    }
    assert forall|k: int, j: int| 0 <= k < j < q.free.len() implies #[trigger] q.free[k]
        != #[trigger] q.free[j] by {
        if j == p.free.len() {
            assert(p.bases[l] != p.free[k]);
        }
    }
}

/// The chunks of the grid among `wanted`.
pub open spec fn needed(geom: DdgiChunkGeom, wanted: Seq<IVec3>, l: int) -> bool {
    exists|k: int|
        0 <= k < wanted.len() && geom.has(#[trigger] wanted[k]) && geom.number(wanted[k]) == l
}

/// `want` says which chunks of the grid need a segment.
pub open spec fn is_want(want: Seq<bool>, geom: DdgiChunkGeom, wanted: Seq<IVec3>) -> bool {
    &&& want.len() == geom.count()
    &&& forall|l: int| 0 <= l < want.len() ==> #[trigger] want[l] == needed(geom, wanted, l)
}

/// Which chunks need a segment.
pub open spec fn want_of(geom: DdgiChunkGeom, wanted: Seq<IVec3>) -> Seq<bool> {
    Seq::new(geom.count() as nat, |l: int| needed(geom, wanted, l))
}

/// Segments of slots, one for each chunk that needs probes.
#[derive(Debug)]
pub struct DdgiChunkPool {
    pub geom: DdgiChunkGeom,
    /// First slot of each chunk's segment.
    pub bases: Vec<u32>,
    /// Segments that were given back; the last one goes first.
    pub free: Vec<u32>,
    /// First slot that no segment has held yet.
    pub next_base: u32,
    /// Raised whenever segments were handed out or given back.
    pub serial: u64,
}

impl Default for DdgiChunkPool {
    fn default() -> (r: Self)
        ensures
            r.wf(),
            r.bases.len() == 0,
            r.free.len() == 0,
            r.next_base == 0,
            r.serial == 0,
            r.geom.dims == (UVec3 { x: 1, y: 1, z: 1 }),
            r.geom.origin == (IVec3 { x: 0, y: 0, z: 0 }),
    {
        DdgiChunkPool {
            geom: DdgiChunkGeom::default(),
            bases: Vec::new(),
            free: Vec::new(),
            next_base: 0,
            serial: 0,
        }
    }
}

impl DdgiChunkPool {
    pub open spec fn model(&self) -> PoolModel {
        PoolModel { bases: self.bases@, free: self.free@, next_base: self.next_base as int }
    }

    pub open spec fn wf(&self) -> bool {
        self.model().wf()
    }

    /// The pool that a sync starts from: empty where the grid has changed.
    pub open spec fn start(&self, geom: DdgiChunkGeom) -> PoolModel {
        if self.geom == geom && self.bases.len() == geom.count() {
            self.model()
        } else {
            PoolModel {
                bases: Seq::new(geom.count() as nat, |l: int| DDGI_CHUNK_NO_BASE),
                free: Seq::empty(),
                next_base: 0,
            }
        }
    }

    /// The pool after a sync.
    pub open spec fn synced(&self, geom: DdgiChunkGeom, wanted: Seq<IVec3>) -> PoolModel {
        let want = want_of(geom, wanted);
        self.start(geom).granted(want, want.len()).released(want, want.len())
    }

    /// Slots that segments have held.
    pub fn chunk_slots(&self) -> (r: u32)
        ensures
            r == self.next_base,
    {
        self.next_base
    }

    /// Brings the pool in line with the chunks that need a segment.
    ///
    /// A chunk that keeps its segment keeps its base. The answer says whether anything changed.
    pub fn sync(&mut self, geom: DdgiChunkGeom, wanted: &Vec<IVec3>) -> (r: bool)
        requires
            old(self).wf(),
            geom.count() * DDGI_CHUNK_SLOTS <= u32::MAX,
        ensures
            final(self).wf(),
            final(self).geom == geom,
            final(self).model() == old(self).synced(geom, wanted@),
            final(self).bases.len() == geom.count(),
            forall|l: int|
                0 <= l < final(self).bases.len() ==> (#[trigger] final(self).bases@[l]
                    != DDGI_CHUNK_NO_BASE <==> needed(geom, wanted@, l)),
            forall|l: int|
                0 <= l < final(self).bases.len() && old(self).start(geom).bases[l]
                    != DDGI_CHUNK_NO_BASE && needed(geom, wanted@, l) ==> #[trigger] final(
                    self).bases@[l] == old(self).start(geom).bases[l],
            r == (old(self).geom != geom || old(self).bases.len() != geom.count() || final(
                self).bases@ != old(self).bases@),
            final(self).serial == (if !r {
                old(self).serial as int
            } else if old(self).serial == u64::MAX {
                0
            } else {
                old(self).serial + 1
            }),
    {
        let n: usize = geom.len() as usize;
        let mut changed: bool = false;
        if self.geom != geom || self.bases.len() != n {
            self.geom = geom;
            self.bases = vec![DDGI_CHUNK_NO_BASE; n];
            self.free.clear();
            self.next_base = 0;
            changed = true;
        }
        let ghost p0 = self.model();
        proof {
            assert(p0.bases =~= old(self).start(geom).bases);
            assert(p0.free =~= old(self).start(geom).free);
            if changed {
                lemma_none_in_use(p0.bases, n as nat);
            }
        }
        let want: Vec<bool> = mark_needed(&geom, wanted);
        proof {
            assert(want@ =~= want_of(geom, wanted@));
        }
        let ghost reset = changed;
        let mut l: usize = 0;
        while l < n
            invariant
                l <= n,
                n == want.len(),
                n == self.bases.len(),
                n * 4096 <= u32::MAX,
                p0.wf(),
                p0.bases.len() == n,
                self.geom == geom,
                self.serial == old(self).serial,
                self.wf(),
                self.model() == p0.granted(want@, l as nat),
                forall|m: int|
                    0 <= m < l ==> (#[trigger] self.bases@[m] != DDGI_CHUNK_NO_BASE <==> want@[m]
                        || p0.bases[m] != DDGI_CHUNK_NO_BASE),
                forall|m: int|
                    0 <= m < n && (m >= l || p0.bases[m] != DDGI_CHUNK_NO_BASE || !want@[m])
                        ==> #[trigger] self.bases@[m] == p0.bases[m],
                changed == (reset || self.bases@ != p0.bases),
            decreases n - l,
        {
            if want[l] && self.bases[l] == DDGI_CHUNK_NO_BASE {
                let ghost q = self.model();
                proof {
                    lemma_grant(q, l as int);
                    assert(q.bases[l as int] == p0.bases[l as int]);
                }
                let base: u32 = match self.free.pop() {
                    Some(b) => b,
                    None => {
                        let b: u32 = self.next_base;
                        self.next_base = self.next_base + DDGI_CHUNK_SLOTS;
                        b
                    },
                };
                self.bases[l] = base;
                changed = true;
                proof {
                    assert(self.bases@ =~= q.grant(l as int).bases);
                    assert(self.free@ =~= q.grant(l as int).free);
                    assert(self.bases@[l as int] != p0.bases[l as int]);
                }
            }
            l += 1;
        }
        let ghost p1 = self.model();
        l = 0;
        while l < n
            invariant
                l <= n,
                n == want.len(),
                n == self.bases.len(),
                p1.bases.len() == n,
                p0.bases.len() == n,
                self.geom == geom,
                self.serial == old(self).serial,
                self.wf(),
                self.model() == p1.released(want@, l as nat),
                forall|m: int|
                    0 <= m < n ==> (#[trigger] p1.bases[m] != DDGI_CHUNK_NO_BASE <==> want@[m]
                        || p0.bases[m] != DDGI_CHUNK_NO_BASE),
                forall|m: int|
                    0 <= m < n && (p0.bases[m] != DDGI_CHUNK_NO_BASE || !want@[m])
                        ==> #[trigger] p1.bases[m] == p0.bases[m],
                forall|m: int|
                    0 <= m < l ==> (#[trigger] self.bases@[m] != DDGI_CHUNK_NO_BASE <==> want@[m]),
                forall|m: int|
                    0 <= m < n && (m >= l || want@[m]) ==> #[trigger] self.bases@[m] == p1.bases[m],
                changed == (reset || self.bases@ != p0.bases),
            decreases n - l,
        {
            let b: u32 = self.bases[l];
            if b != DDGI_CHUNK_NO_BASE && !want[l] {
                let ghost q = self.model();
                proof {
                    lemma_release(q, l as int);
                }
                self.bases[l] = DDGI_CHUNK_NO_BASE;
                self.free.push(b);
                changed = true;
                proof {
                    assert(self.bases@ =~= q.release(l as int).bases);
                    assert(self.free@ =~= q.release(l as int).free);
                    assert(self.bases@[l as int] != p0.bases[l as int]);
                }
            }
            l += 1;
        }
        if changed {
            self.serial = self.serial.wrapping_add(1);
        }
        changed
    }
}

proof fn lemma_none_in_use(bases: Seq<u32>, n: nat)
    requires
        n <= bases.len(),
        forall|l: int| 0 <= l < n ==> #[trigger] bases[l] == DDGI_CHUNK_NO_BASE,
    ensures
        in_use(bases, n) == 0,
    decreases n,
{
    if n > 0 {
        lemma_none_in_use(bases, (n - 1) as nat);
    }
}

fn mark_needed(geom: &DdgiChunkGeom, wanted: &Vec<IVec3>) -> (r: Vec<bool>)
    requires
        geom.count() <= u32::MAX,
    ensures
        is_want(r@, *geom, wanted@),
{
    let n: usize = geom.len() as usize;
    let mut r: Vec<bool> = vec![false; n];
    let mut k: usize = 0;
    while k < wanted.len()
        invariant
            k <= wanted.len(),
            geom.count() <= u32::MAX,
            r.len() == geom.count(),
            forall|l: int|
                0 <= l < r.len() ==> #[trigger] r@[l] == exists|j: int|
                    0 <= j < k && geom.has(#[trigger] wanted@[j]) && geom.number(wanted@[j]) == l,
        decreases wanted.len() - k,
    {
        let ghost r0 = r@;
        if let Some(i) = geom.linear(wanted[k]) {
            r[i as usize] = true;
            assert(geom.has(wanted@[k as int]) && geom.number(wanted@[k as int]) == i);
        }
        proof {
            assert forall|l: int| 0 <= l < r.len() implies #[trigger] r@[l] == exists|j: int|
                0 <= j < k + 1 && geom.has(#[trigger] wanted@[j]) && geom.number(wanted@[j]) == l by {
                if r0[l] {
                    let j = choose|j: int|
                        0 <= j < k && geom.has(#[trigger] wanted@[j]) && geom.number(wanted@[j]) == l;
                    assert(geom.has(wanted@[j]) && geom.number(wanted@[j]) == l);
                }
                if r@[l] && !r0[l] {
                    assert(geom.has(wanted@[k as int]) && geom.number(wanted@[k as int]) == l);
                }
            }
        }
        k += 1;
    }
    r
}

/// Slots of different chunks are different.
pub proof fn lemma_segments_apart(p: PoolModel, l: int, m: int, i: int, j: int)
    requires
        p.wf(),
        0 <= l < p.bases.len(),
        0 <= m < p.bases.len(),
        l != m,
        p.bases[l] != DDGI_CHUNK_NO_BASE,
        p.bases[m] != DDGI_CHUNK_NO_BASE,
        0 <= i < DDGI_CHUNK_SLOTS,
        0 <= j < DDGI_CHUNK_SLOTS,
    ensures
        p.bases[l] + i != p.bases[m] + j,
        p.bases[l] + i < p.next_base,
{
    if l < m {
        assert(p.bases[m] != p.bases[l]);
    } else {
        assert(p.bases[l] != p.bases[m]);
    }
}

/// Chunks are numbered along `x` first, then `y`, then `z`, from the grid's origin.
pub proof fn lemma_neighbours_are_numbered(g: DdgiChunkGeom, a: IVec3, b: IVec3)
    ensures
        a == g.origin ==> g.number(a) == 0,
        b.x == a.x + 1 && b.y == a.y && b.z == a.z ==> g.number(b) == g.number(a) + 1,
        b.x == a.x && b.y == a.y + 1 && b.z == a.z ==> g.number(b) == g.number(a) + g.dims.x,
        b.x == a.x && b.y == a.y && b.z == a.z + 1 ==> g.number(b) == g.number(a) + g.dims.x
            * g.dims.y,
{
    let (w, p) = (g.dims.x as int, g.dims.x * g.dims.y);
    let (y, z) = (a.y - g.origin.y, a.z - g.origin.z);
    assert((y + 1) * w == y * w + w && (z + 1) * p == z * p + p) by (nonlinear_arith);
    assert(a == g.origin ==> 0 * w == 0 && 0 * p == 0) by (nonlinear_arith);
}

/// The grid has one chunk to spare on each side of the world, on each axis, and no more.
pub proof fn lemma_one_chunk_to_spare(g: DdgiChunkGeom, lo: IVec3, hi: IVec3)
    requires
        g.is_around(lo, hi),
        lo.x < hi.x,
        lo.y < hi.y,
        lo.z < hi.z,
    ensures
        256 * (g.origin.x + 1) <= lo.x < 256 * (g.origin.x + 2),
        256 * (g.origin.y + 1) <= lo.y < 256 * (g.origin.y + 2),
        256 * (g.origin.z + 1) <= lo.z < 256 * (g.origin.z + 2),
        256 * (g.origin.x + g.dims.x - 2) < hi.x <= 256 * (g.origin.x + g.dims.x - 1),
        256 * (g.origin.y + g.dims.y - 2) < hi.y <= 256 * (g.origin.y + g.dims.y - 1),
        256 * (g.origin.z + g.dims.z - 2) < hi.z <= 256 * (g.origin.z + g.dims.z - 1),
{
}

/// A chunk of the grid has a segment exactly when it is wanted.
pub proof fn lemma_needed_is_wanted(g: DdgiChunkGeom, wanted: Seq<IVec3>, c: IVec3)
    requires
        g.fits(),
        g.has(c),
    ensures
        needed(g, wanted, g.number(c)) <==> wanted.contains(c),
{
    if needed(g, wanted, g.number(c)) {
        let k = choose|k: int|
            0 <= k < wanted.len() && g.has(#[trigger] wanted[k]) && g.number(wanted[k]) == g.number(c);
        g.lemma_numbers(c, 0);
        g.lemma_numbers(wanted[k], 0);
        assert(wanted[k] == c);
    }
    if wanted.contains(c) {
        let k = choose|k: int| 0 <= k < wanted.len() && wanted[k] == c;
        assert(g.has(wanted[k]));
    }
}

/// The segments grow only when none is free: a segment that was given back is handed out first, the
/// last one of all, and a new one starts where the others end.
pub proof fn lemma_segments_are_reused(p: PoolModel, l: int)
    requires
        0 <= l < p.bases.len(),
        0 <= p.next_base <= u32::MAX,
    ensures
        p.free.len() > 0 ==> p.grant(l).next_base == p.next_base && p.free.contains(p.grant(l).bases[l])
            && p.free == p.grant(l).free.push(p.grant(l).bases[l]),
        p.free.len() == 0 ==> p.grant(l).bases[l] == p.next_base && p.grant(l).next_base == p.next_base
            + 16 * 16 * 16,
        p.release(l).free.last() == p.bases[l],
        p.bases[l] != DDGI_CHUNK_NO_BASE ==> p.release(l).grant(l) == p,
{
    if p.free.len() > 0 {
        assert(p.free.drop_last().push(p.free.last()) =~= p.free);
    }
    let q = p.release(l).grant(l);
    assert(q.bases =~= p.bases);
    assert(q.free =~= p.free);
}

proof fn lemma_granted(p: PoolModel, want: Seq<bool>, n: nat)
    requires
        p.wf(),
        4096 * p.bases.len() <= u32::MAX,
        want.len() == p.bases.len(),
        n <= want.len(),
    ensures
        p.granted(want, n).wf(),
        p.granted(want, n).bases.len() == p.bases.len(),
        forall|l: int|
            0 <= l < p.bases.len() && (p.bases[l] != DDGI_CHUNK_NO_BASE || l >= n || !want[l])
                ==> #[trigger] p.granted(want, n).bases[l] == p.bases[l],
        forall|l: int|
            0 <= l < n && want[l] ==> #[trigger] p.granted(want, n).bases[l] != DDGI_CHUNK_NO_BASE,
    decreases n,
{
    if n > 0 {
        let m = (n - 1) as nat;
        lemma_granted(p, want, m);
        let q = p.granted(want, m);
        if want[n - 1] && q.bases[n - 1] == DDGI_CHUNK_NO_BASE {
            lemma_grant(q, n - 1);
        }
    }
}

proof fn lemma_released(p: PoolModel, want: Seq<bool>, n: nat)
    requires
        p.wf(),
        want.len() == p.bases.len(),
        n <= want.len(),
    ensures
        p.released(want, n).wf(),
        p.released(want, n).bases.len() == p.bases.len(),
        forall|l: int|
            0 <= l < p.bases.len() && (l >= n || want[l]) ==> #[trigger] p.released(want, n).bases[l]
                == p.bases[l],
        forall|l: int|
            0 <= l < n && !want[l] ==> #[trigger] p.released(want, n).bases[l] == DDGI_CHUNK_NO_BASE,
    decreases n,
{
    if n > 0 {
        let m = (n - 1) as nat;
        lemma_released(p, want, m);
        let q = p.released(want, m);
        if !want[n - 1] && q.bases[n - 1] != DDGI_CHUNK_NO_BASE {
            lemma_release(q, n - 1);
        }
    }
}

/// After a sync the wanted chunks of the grid have a segment, and no others do. A chunk that had one in
/// the same grid and is still wanted keeps it.
pub proof fn lemma_synced_serves_wanted(p: DdgiChunkPool, geom: DdgiChunkGeom, wanted: Seq<IVec3>, c: IVec3)
    requires
        p.wf(),
        geom.fits(),
        geom.count() * DDGI_CHUNK_SLOTS <= u32::MAX,
        geom.has(c),
    ensures
        p.synced(geom, wanted).bases.len() == geom.count(),
        p.synced(geom, wanted).bases[geom.number(c)] != DDGI_CHUNK_NO_BASE <==> wanted.contains(c),
        p.geom == geom && p.bases.len() == geom.count() && wanted.contains(c) && p.bases@[geom.number(
            c,
        )] != DDGI_CHUNK_NO_BASE ==> p.synced(geom, wanted).bases[geom.number(c)] == p.bases@[geom.number(
            c,
        )],
{
    let want = want_of(geom, wanted);
    let s = p.start(geom);
    let l = geom.number(c);
    geom.lemma_numbers(c, 0);
    lemma_needed_is_wanted(geom, wanted, c);
    if !(p.geom == geom && p.bases.len() == geom.count()) {
        lemma_none_in_use(s.bases, s.bases.len());
    }
    assert(s.wf());
    assert(want.len() == geom.count());
    lemma_granted(s, want, want.len());
    lemma_released(s.granted(want, want.len()), want, want.len());
    assert(want[l] == needed(geom, wanted, l));
}

/// A grid without chunks has none on some axis, and holds no chunk.
pub proof fn lemma_empty_grid(g: DdgiChunkGeom, c: IVec3)
    ensures
        g.has_none() <==> g.count() == 0,
        g.has_none() ==> !g.has(c),
{
    let (x, y, z) = (g.dims.x as int, g.dims.y as int, g.dims.z as int);
    assert(x * y * z == 0 <==> x == 0 || y == 0 || z == 0) by (nonlinear_arith);
}

} // verus!
