//! Integer vectors.

use vstd::prelude::*;

verus! {

/// Three signed components.
#[derive(Debug, Clone, Copy, PartialEq, Eq, Hash, Structural)]
pub struct IVec3 {
    pub x: i32,
    pub y: i32,
    pub z: i32,
}

/// Three unsigned components.
#[derive(Debug, Clone, Copy, PartialEq, Eq, Hash, Structural)]
pub struct UVec3 {
    pub x: u32,
    pub y: u32,
    pub z: u32,
}

/// Two unsigned components.
#[derive(Debug, Clone, Copy, PartialEq, Eq, Hash, Structural)]
pub struct UVec2 {
    pub x: u32,
    pub y: u32,
}

/// A chunk's position, in chunks.
#[derive(Debug, Clone, Copy, PartialEq, Eq, Hash, Structural)]
pub struct ChunkCoord(pub IVec3);

/// `a` comes before `b` when compared by `x`, then `y`, then `z`.
pub open spec fn lex_less(a: IVec3, b: IVec3) -> bool {
    a.x < b.x || (a.x == b.x && (a.y < b.y || (a.y == b.y && a.z < b.z)))
}

impl IVec3 {
    pub fn new(x: i32, y: i32, z: i32) -> (r: Self)
        ensures
            r == (IVec3 { x, y, z }),
    {
        IVec3 { x, y, z }
    }

    pub fn splat(v: i32) -> (r: Self)
        ensures
            r == (IVec3 { x: v, y: v, z: v }),
    {
        IVec3 { x: v, y: v, z: v }
    }

    /// The lesser of each pair of components.
    pub open spec fn min_of(self, o: Self) -> Self {
        IVec3 {
            x: if self.x <= o.x {
                self.x
            } else {
                o.x
            },
            y: if self.y <= o.y {
                self.y
            } else {
                o.y
            },
            z: if self.z <= o.z {
                self.z
            } else {
                o.z
            },
        }
    }

    /// The greater of each pair of components.
    pub open spec fn max_of(self, o: Self) -> Self {
        IVec3 {
            x: if self.x >= o.x {
                self.x
            } else {
                o.x
            },
            y: if self.y >= o.y {
                self.y
            } else {
                o.y
            },
            z: if self.z >= o.z {
                self.z
            } else {
                o.z
            },
        }
    }

    /// Component-wise minimum.
    pub fn min(self, o: Self) -> (r: Self)
        ensures
            r == self.min_of(o),
            r.x == (if self.x <= o.x { self.x } else { o.x }),
            r.y == (if self.y <= o.y { self.y } else { o.y }),
            r.z == (if self.z <= o.z { self.z } else { o.z }),
    {
        IVec3 {
            x: if self.x <= o.x { self.x } else { o.x },
            y: if self.y <= o.y { self.y } else { o.y },
            z: if self.z <= o.z { self.z } else { o.z },
        }
    }

    /// Component-wise maximum.
    pub fn max(self, o: Self) -> (r: Self)
        ensures
            r == self.max_of(o),
            r.x == (if self.x >= o.x { self.x } else { o.x }),
            r.y == (if self.y >= o.y { self.y } else { o.y }),
            r.z == (if self.z >= o.z { self.z } else { o.z }),
    {
        IVec3 {
            x: if self.x >= o.x { self.x } else { o.x },
            y: if self.y >= o.y { self.y } else { o.y },
            z: if self.z >= o.z { self.z } else { o.z },
        }
    }

    /// Order by `x`, then `y`, then `z`.
    pub fn lex_lt(self, o: Self) -> (r: bool)
        ensures
            r == lex_less(self, o),
    {
        self.x < o.x || (self.x == o.x && (self.y < o.y || (self.y == o.y && self.z < o.z)))
    }
}

/// Floor division by a positive divisor.
pub fn div_floor(a: i32, d: i32) -> (r: i32)
    requires
        d > 0,
    ensures
        r as int == a as int / d as int,
{
    if a >= 0 {
        a / d
    } else {
        let q: i64 = -((-(a as i64) + (d as i64) - 1) / (d as i64));
        proof {
            let m: int = -(a as int) + d - 1;
            let k: int = m / (d as int);
            assert(m == d * k + m % (d as int)) by {
                vstd::arithmetic::div_mod::lemma_fundamental_div_mod(m, d as int);
            }
            assert(0 <= m % (d as int) < d);
            let rr = a + d * k;
            assert(rr == d - 1 - m % (d as int));
            assert(a as int == d * (-k) + rr) by (nonlinear_arith)
                requires
                    rr == a + d * k,
            ;
            vstd::arithmetic::div_mod::lemma_fundamental_div_mod_converse(
                a as int,
                d as int,
                -k,
                rr,
            );
            assert(0 <= k <= m) by (nonlinear_arith)
                requires
                    m == d * k + m % (d as int),
                    0 <= m % (d as int) < d,
                    d > 0,
                    m >= 0,
            ;
            assert(-k >= a) by (nonlinear_arith)
                requires
                    a as int == d * (-k) + rr,
                    0 <= rr < d,
                    d > 0,
                    a < 0,
                    k >= 0,
            ;
        }
        q as i32
    }
}

/// The remainder that goes with [`div_floor`].
pub fn rem_floor(a: i32, d: i32) -> (r: i32)
    requires
        d > 0,
    ensures
        r as int == a as int % d as int,
        0 <= r < d,
{
    let q: i32 = div_floor(a, d);
    proof {
        vstd::arithmetic::div_mod::lemma_fundamental_div_mod(a as int, d as int);
        assert(d * q == q * d) by (nonlinear_arith);
        assert(-0x4000_0000_0000_0000 < q * d < 0x4000_0000_0000_0000) by (nonlinear_arith)
            requires
                i32::MIN <= q <= i32::MAX,
                0 < d <= i32::MAX,
        ;
    }
    ((a as i64) - (q as i64) * (d as i64)) as i32
}

/// Ceiling division.
pub fn div_ceil(a: u32, d: u32) -> (r: u32)
    requires
        d > 0,
    ensures
        r as int == (a + d - 1) / d as int,
{
    proof {
        assert((a + d - 1) / d as int <= u32::MAX) by (nonlinear_arith)
            requires
                d > 0,
                0 <= a <= u32::MAX,
        ;
        assert((a + d - 1) / d as int >= 0) by (nonlinear_arith)
            requires
                d > 0,
                0 <= a,
        ;
    }
    (((a as u64) + (d as u64) - 1) / (d as u64)) as u32
}

/// The lesser components are on or below both, on each axis, and each is one of the two.
pub proof fn lemma_min_of(a: IVec3, b: IVec3)
    ensures
        a.min_of(b).x <= a.x && a.min_of(b).x <= b.x,
        a.min_of(b).y <= a.y && a.min_of(b).y <= b.y,
        a.min_of(b).z <= a.z && a.min_of(b).z <= b.z,
        a.min_of(b).x == a.x || a.min_of(b).x == b.x,
        a.min_of(b).y == a.y || a.min_of(b).y == b.y,
        a.min_of(b).z == a.z || a.min_of(b).z == b.z,
{
}

/// The greater components are on or above both, on each axis, and each is one of the two.
pub proof fn lemma_max_of(a: IVec3, b: IVec3)
    ensures
        a.max_of(b).x >= a.x && a.max_of(b).x >= b.x,
        a.max_of(b).y >= a.y && a.max_of(b).y >= b.y,
        a.max_of(b).z >= a.z && a.max_of(b).z >= b.z,
        a.max_of(b).x == a.x || a.max_of(b).x == b.x,
        a.max_of(b).y == a.y || a.max_of(b).y == b.y,
        a.max_of(b).z == a.z || a.max_of(b).z == b.z,
{
}

/// Of two different vectors exactly one comes first: the one that is less on the first axis on which
/// they differ. The order is transitive.
pub proof fn lemma_lex_order(a: IVec3, b: IVec3, c: IVec3)
    ensures
        !lex_less(a, a),
        a != b ==> (lex_less(a, b) <==> !lex_less(b, a)),
        lex_less(a, b) && lex_less(b, c) ==> lex_less(a, c),
        a.x < b.x ==> lex_less(a, b),
        a.x == b.x && a.y < b.y ==> lex_less(a, b),
        a.x == b.x && a.y == b.y && a.z < b.z ==> lex_less(a, b),
{
}

} // verus!
