//! Light per face: which faces were seen, how they are hashed, and when they are lit again.
//!
//! The card keeps seen voxels in an open-addressed table. A slot's first word is its status and the
//! hash of its key in one, so that one atomic operation claims it.

use super::mov::OBJ_WORLD;
use crate::math::IVec3;
use vstd::prelude::*;

verus! {

/// Slots of the table.
pub const FL_REG_SLOTS: u32 = 2097152;

/// Words of a slot: status, voxel, object, faces, epoch, six colours and a centre.
pub const FL_WORDS_PER_SLOT: u32 = 28;

/// Slots that a search looks at before it gives up.
pub const FL_PROBE_MAX: u32 = 64;

/// Epoch of a slot that has not been lit.
pub const FL_EPOCH_INVALID: u32 = 0xFFFF_FFFF;

/// Slots per workgroup.
pub const FL_WORKGROUP: u32 = 64;

/// The slot is taken.
pub const FL_STATUS_OCCUPIED: u32 = 0x8000_0000;

/// The key's hash in a slot's first word.
pub const FL_HASH_MASK: u32 = 0x3FFF_FFFF;

/// Bytes of the table.
pub const FL_BUF_SIZE: u64 = 234881024;

/// The direction in which face `f` looks: -X, +X, -Y, +Y, -Z, +Z.
pub open spec fn looks(f: u32) -> IVec3 {
    let s = if f % 2 == 0 && f < 6 {
        (-1) as i32
    } else {
        1i32
    };
    if f < 2 {
        IVec3 { x: s, y: 0, z: 0 }
    } else if f < 4 {
        IVec3 { x: 0, y: s, z: 0 }
    } else {
        IVec3 { x: 0, y: 0, z: s }
    }
}

/// The direction in which face `f` looks.
pub fn face_normal(f: u32) -> (r: IVec3)
    ensures
        r == looks(f),
{
    if f == 0 {
        IVec3::new(-1, 0, 0)
    } else if f == 1 {
        IVec3::new(1, 0, 0)
    } else if f == 2 {
        IVec3::new(0, -1, 0)
    } else if f == 3 {
        IVec3::new(0, 1, 0)
    } else if f == 4 {
        IVec3::new(0, 0, -1)
    } else {
        IVec3::new(0, 0, 1)
    }
}

/// What a face's number depends on in one component of a normal: its size is over a half, under a
/// half, and it is below zero.
#[derive(Debug, Clone, Copy, PartialEq, Eq, Structural)]
pub struct AxisPart {
    pub over: bool,
    pub under: bool,
    pub negative: bool,
}

/// Component `a` alone is large.
pub open spec fn only_axis(n: Seq<AxisPart>, a: int) -> bool {
    n[a].over && (forall|b: int| 0 <= b < 3 && b != a ==> (#[trigger] n[b]).under)
}

/// The face that looks in a direction, if it is along an axis.
pub fn face_index_from_normal(n: [AxisPart; 3]) -> (r: Option<u32>)
    requires
        forall|a: int| 0 <= a < 3 ==> !((#[trigger] n@[a]).over && n@[a].under),
    ensures
        match r {
            Some(f) => f < 6 && only_axis(n@, f as int / 2) && (f % 2 == 0 <==> n@[f as int
                / 2].negative),
            None => forall|a: int| 0 <= a < 3 ==> !#[trigger] only_axis(n@, a),
        },
{
    let ghost s = n@;
    let (x, y, z): (AxisPart, AxisPart, AxisPart) = (n[0], n[1], n[2]);
    proof {
        assert(s[0] == x && s[1] == y && s[2] == z);
    }
    if x.over && y.under && z.under {
        Some(
            if x.negative {
                0
            } else {
                1
            },
        )
    } else if y.over && x.under && z.under {
        Some(
            if y.negative {
                2
            } else {
                3
            },
        )
    } else if z.over && x.under && y.under {
        Some(
            if z.negative {
                4
            } else {
                5
            },
        )
    } else {
        None
    }
}

/// A whole number as a component of a normal.
pub open spec fn whole_part(c: int) -> AxisPart {
    AxisPart { over: c != 0, under: c == 0, negative: c < 0 }
}

/// A direction of whole numbers by its components.
pub open spec fn whole_parts(n: IVec3) -> Seq<AxisPart> {
    seq![whole_part(n.x as int), whole_part(n.y as int), whole_part(n.z as int)]
}

/// Of the faces, `f` alone looks where `f` looks.
pub proof fn lemma_face_roundtrip(f: u32, g: u32)
    requires
        f < 6,
        g < 6,
    ensures
        f == g <==> only_axis(whole_parts(looks(f)), g as int / 2) && (g % 2 == 0
            <==> whole_parts(looks(f))[g as int / 2].negative),
{
    let s = whole_parts(looks(f));
    assert(s[0] == whole_part(looks(f).x as int) && s[1] == whole_part(looks(f).y as int) && s[2]
        == whole_part(looks(f).z as int));
    assert(g / 2 < 3);
    if only_axis(s, g as int / 2) {
        assert(f / 2 == g / 2);
    }
    if f == g {
        assert(forall|b: int| 0 <= b < 3 && b != f as int / 2 ==> (#[trigger] s[b]).under);
    }
}

/// One round of mixing.
pub open spec fn mixed(v: u32) -> u32 {
    let a = v ^ (v >> 16);
    let b = a.wrapping_mul(0x7FEB_352D);
    let c = b ^ (b >> 15);
    let d = c.wrapping_mul(0x846C_A68B);
    d ^ (d >> 16)
}

/// One round of mixing.
pub fn fl_hash_u32(v: u32) -> (r: u32)
    ensures
        r == mixed(v),
{
    let a: u32 = v ^ (v >> 16);
    let b: u32 = a.wrapping_mul(0x7FEB_352D);
    let c: u32 = b ^ (b >> 15);
    let d: u32 = c.wrapping_mul(0x846C_A68B);
    d ^ (d >> 16)
}

/// Hash of a key: the coordinates and the object are mixed in, one after the other.
pub open spec fn key_hash(x: i32, y: i32, z: i32, obj_key: u32) -> u32 {
    let a = mixed(0x811C_9DC5u32 ^ (x as u32));
    let b = mixed(a ^ (y as u32));
    let c = mixed(b ^ (z as u32));
    mixed(c ^ obj_key)
}

/// Hash of a key.
pub fn fl_hash(x: i32, y: i32, z: i32, obj_key: u32) -> (r: u32)
    ensures
        r == key_hash(x, y, z, obj_key),
{
    let a: u32 = fl_hash_u32(0x811C_9DC5u32 ^ (x as u32));
    let b: u32 = fl_hash_u32(a ^ (y as u32));
    let c: u32 = fl_hash_u32(b ^ (z as u32));
    fl_hash_u32(c ^ obj_key)
}

/// The part of a key's hash that a slot keeps.
pub open spec fn kept_hash(voxel: IVec3, obj_key: u32) -> u32 {
    key_hash(voxel.x, voxel.y, voxel.z, obj_key) & 0x3FFF_FFFF
}

/// The part of a key's hash that a slot keeps.
pub fn fl_packed_key_hash(voxel: IVec3, obj_key: u32) -> (r: u32)
    ensures
        r == kept_hash(voxel, obj_key),
        r <= FL_HASH_MASK,
{
    let h: u32 = fl_hash(voxel.x, voxel.y, voxel.z, obj_key);
    assert(h & 0x3FFF_FFFF <= 0x3FFF_FFFF) by (bit_vector);
    h & FL_HASH_MASK
}

/// First word of a slot that holds a key.
pub open spec fn taken_word(voxel: IVec3, obj_key: u32) -> u32 {
    0x8000_0000 | kept_hash(voxel, obj_key)
}

/// First word of a slot that holds a key.
pub fn fl_pack_status_hash(voxel: IVec3, obj_key: u32) -> (r: u32)
    ensures
        r == taken_word(voxel, obj_key),
{
    FL_STATUS_OCCUPIED | fl_packed_key_hash(voxel, obj_key)
}

/// The hash in a slot's first word.
pub fn fl_unpack_hash(packed: u32) -> (r: u32)
    ensures
        r == packed & 0x3FFF_FFFF,
{
    packed & FL_HASH_MASK
}

/// The slot is taken.
pub fn fl_is_occupied(packed: u32) -> (r: bool)
    ensures
        r == (packed & 0x8000_0000 != 0),
{
    (packed & FL_STATUS_OCCUPIED) != 0
}

/// A slot's first word gives status and hash back: two seen faces of one voxel meet in one slot.
pub proof fn lemma_packed_word(voxel: IVec3, obj_key: u32)
    ensures
        taken_word(voxel, obj_key) & 0x8000_0000 != 0,
        taken_word(voxel, obj_key) & 0x3FFF_FFFF == kept_hash(voxel, obj_key),
        0u32 & 0x8000_0000 == 0,
{
    let h = key_hash(voxel.x, voxel.y, voxel.z, obj_key);
    assert((0x8000_0000u32 | (h & 0x3FFF_FFFF)) & 0x8000_0000 != 0) by (bit_vector);
    assert((0x8000_0000u32 | (h & 0x3FFF_FFFF)) & 0x3FFF_FFFF == h & 0x3FFF_FFFF) by (bit_vector);
    assert(0u32 & 0x8000_0000 == 0) by (bit_vector);
}

/// Object number in a key: 0 is the world.
pub fn object_key(obj: u32) -> (r: u32)
    ensures
        r == (if obj == OBJ_WORLD {
            0
        } else {
            obj + 1
        }),
{
    if obj == OBJ_WORLD {
        0
    } else {
        obj + 1
    }
}

/// When light was last made invalid.
#[derive(Debug, Clone, Copy, PartialEq, Eq, Structural)]
pub struct FaceLightState {
    pub epoch: u32,
    pub last_obj_version: u32,
    /// A theme has been seen.
    pub has_theme: bool,
}

impl Default for FaceLightState {
    fn default() -> (r: Self)
        ensures
            r == (FaceLightState { epoch: 1, last_obj_version: u32::MAX, has_theme: false }),
    {
        FaceLightState { epoch: 1, last_obj_version: u32::MAX, has_theme: false }
    }
}

impl FaceLightState {
    /// Edits wait, the objects have another version, or the theme is new or has changed.
    pub open spec fn outdated(
        self,
        edits: Option<usize>,
        obj_version: Option<u32>,
        theme_changed: Option<bool>,
    ) -> bool {
        ||| edits is Some && edits->0 > 0
        ||| obj_version is Some && obj_version->0 != self.last_obj_version
        ||| theme_changed is Some && (!self.has_theme || theme_changed->0)
    }

    /// One frame: a new epoch begins where anything changed that light depends on. `edits` counts
    /// chunks that wait for an upload; `theme_changed` compares the theme with the one before.
    pub fn face_light_epoch_tick(
        &mut self,
        edits: Option<usize>,
        obj_version: Option<u32>,
        theme_changed: Option<bool>,
    )
        ensures
            final(self).epoch == (if !old(self).outdated(edits, obj_version, theme_changed) {
                old(self).epoch as int
            } else if old(self).epoch == u32::MAX {
                0
            } else {
                old(self).epoch + 1
            }),
            final(self).last_obj_version == (match obj_version {
                Some(v) => v,
                None => old(self).last_obj_version,
            }),
            final(self).has_theme == (old(self).has_theme || theme_changed is Some),
    {
        let mut bump: bool = false;
        if let Some(n) = edits {
            if n > 0 {
                bump = true;
            }
        }
        if let Some(v) = obj_version {
            if v != self.last_obj_version {
                self.last_obj_version = v;
                bump = true;
            }
        }
        if let Some(changed) = theme_changed {
            if !self.has_theme || changed {
                bump = true;
            }
            self.has_theme = true;
        }
        if bump {
            self.epoch = self.epoch.wrapping_add(1);
        }
    }
}

/// The colour and the glow of a palette entry, as bytes.
pub fn entry_bytes(w0: u32, w1: u32) -> (r: (u8, u8, u8, u8))
    ensures
        r.0 == w0 % 256,
        r.1 == w0 as int / 256 % 256,
        r.2 == w0 as int / 65536 % 256,
        r.3 == w1 % 256,
{
    ((w0 % 256) as u8, (w0 / 256 % 256) as u8, (w0 / 65536 % 256) as u8, (w1 % 256) as u8)
}

/// Multiplication by `c` in 32 bits can be undone by multiplication by `d`.
proof fn lemma_product_undone(x: u32, c: u32, d: u32)
    requires
        (c * d) % 0x1_0000_0000 == 1,
    ensures
        (x.wrapping_mul(c) * d) % 0x1_0000_0000 == x,
{
    let m = 0x1_0000_0000int;
    let p = x * c;
    assert(x.wrapping_mul(c) == p % m);
    vstd::arithmetic::div_mod::lemma_mul_mod_noop_left(p, d as int, m);
    assert(p * d == x * (c * d)) by (nonlinear_arith)
        requires
            p == x * c,
    ;
    vstd::arithmetic::div_mod::lemma_mul_mod_noop_right(x as int, c * d, m);
    vstd::arithmetic::div_mod::lemma_small_mod(x as nat, m as nat);
}

/// Mixing loses nothing: different words mix to different words.
pub proof fn lemma_mixed_apart(v: u32, w: u32)
    requires
        mixed(v) == mixed(w),
    ensures
        v == w,
{
    let (a1, a2) = (v ^ (v >> 16), w ^ (w >> 16));
    let (b1, b2) = (a1.wrapping_mul(0x7FEB_352D), a2.wrapping_mul(0x7FEB_352D));
    let (c1, c2) = (b1 ^ (b1 >> 15), b2 ^ (b2 >> 15));
    let (d1, d2) = (c1.wrapping_mul(0x846C_A68B), c2.wrapping_mul(0x846C_A68B));
    assert(d1 ^ (d1 >> 16) == d2 ^ (d2 >> 16) ==> d1 == d2) by (bit_vector);
    assert((0x846C_A68B_u32 * 0x4302_1123_u32) % 0x1_0000_0000 == 1);
    lemma_product_undone(c1, 0x846C_A68B, 0x4302_1123);
    lemma_product_undone(c2, 0x846C_A68B, 0x4302_1123);
    assert(b1 ^ (b1 >> 15) == b2 ^ (b2 >> 15) ==> b1 == b2) by (bit_vector);
    assert((0x7FEB_352D_u32 * 0x1D69_E2A5_u32) % 0x1_0000_0000 == 1);
    lemma_product_undone(a1, 0x7FEB_352D, 0x1D69_E2A5);
    lemma_product_undone(a2, 0x7FEB_352D, 0x1D69_E2A5);
    assert(v ^ (v >> 16) == w ^ (w >> 16) ==> v == w) by (bit_vector);
}

/// The hash depends on all three coordinates and on the object: keys that differ in one of them alone
/// have different hashes.
pub proof fn lemma_hash_tells_keys(v: IVec3, w: IVec3, j: u32, k: u32)
    requires
        key_hash(v.x, v.y, v.z, j) == key_hash(w.x, w.y, w.z, k),
    ensures
        v == w ==> j == k,
        j == k && v.x == w.x && v.y == w.y ==> v.z == w.z,
        j == k && v.x == w.x && v.z == w.z ==> v.y == w.y,
        j == k && v.y == w.y && v.z == w.z ==> v.x == w.x,
{
    let a1 = mixed(0x811C_9DC5u32 ^ (v.x as u32));
    let a2 = mixed(0x811C_9DC5u32 ^ (w.x as u32));
    let (b1, b2) = (mixed(a1 ^ (v.y as u32)), mixed(a2 ^ (w.y as u32)));
    let (c1, c2) = (mixed(b1 ^ (v.z as u32)), mixed(b2 ^ (w.z as u32)));
    lemma_mixed_in(0x811C_9DC5, 0x811C_9DC5, v.x as u32, w.x as u32);
    lemma_mixed_in(a1, a2, v.y as u32, w.y as u32);
    lemma_mixed_in(b1, b2, v.z as u32, w.z as u32);
    lemma_mixed_in(c1, c2, j, k);
    lemma_bits_apart(v.x, w.x);
    lemma_bits_apart(v.y, w.y);
    lemma_bits_apart(v.z, w.z);
}

/// Of two words and what is mixed into them, both differ or neither where the results are the same.
proof fn lemma_mixed_in(a: u32, b: u32, x: u32, y: u32)
    ensures
        a == b ==> (mixed(a ^ x) == mixed(b ^ y) <==> x == y),
        x == y ==> (mixed(a ^ x) == mixed(b ^ y) <==> a == b),
{
    if mixed(a ^ x) == mixed(b ^ y) {
        lemma_mixed_apart(a ^ x, b ^ y);
        assert(a ^ x == b ^ y ==> (a == b <==> x == y)) by (bit_vector);
    }
}

proof fn lemma_bits_apart(a: i32, b: i32)
    ensures
        a as u32 == b as u32 ==> a == b,
{
    assert(a as u32 == b as u32 ==> a == b) by (bit_vector);
}

/// A slot's first word holds the low thirty bits of the hash, and its highest bit says that it is
/// taken.
pub proof fn lemma_slot_word(voxel: IVec3, obj_key: u32)
    ensures
        kept_hash(voxel, obj_key) == key_hash(voxel.x, voxel.y, voxel.z, obj_key) % 0x4000_0000,
        taken_word(voxel, obj_key) == kept_hash(voxel, obj_key) + 0x8000_0000,
{
    let h = key_hash(voxel.x, voxel.y, voxel.z, obj_key);
    assert(h & 0x3FFF_FFFF == h % 0x4000_0000 && (0x8000_0000 | (h & 0x3FFF_FFFF)) == (h % 0x4000_0000)
        + 0x8000_0000) by (bit_vector);
}

/// Faces are numbered as rays number them: face `f` looks along axis `f / 2`, down for an even number
/// and up for an odd one.
pub proof fn lemma_faces_agree(f: u32)
    requires
        f < 6,
    ensures
        ({
            let d = super::raytrace::face_direction(f as int);
            looks(f).x == d.0 && looks(f).y == d.1 && looks(f).z == d.2
        }),
        ({
            let s: int = if f % 2 == 0 {
                -1
            } else {
                1
            };
            &&& looks(f).x == (if f as int / 2 == 0 {
                s
            } else {
                0
            })
            &&& looks(f).y == (if f as int / 2 == 1 {
                s
            } else {
                0
            })
            &&& looks(f).z == (if f as int / 2 == 2 {
                s
            } else {
                0
            })
        }),
{
}

/// The light is outdated as soon as one of its sources changes, and stays while none does: an edit,
/// another version of the objects, the first theme or another one.
pub proof fn lemma_outdated(
    s: FaceLightState,
    edits: Option<usize>,
    obj_version: Option<u32>,
    theme_changed: Option<bool>,
)
    ensures
        !s.outdated(None, None, None),
        !s.outdated(Some(0), Some(s.last_obj_version), None),
        s.has_theme ==> !s.outdated(Some(0), Some(s.last_obj_version), Some(false)),
        edits is Some && edits->0 > 0 ==> s.outdated(edits, obj_version, theme_changed),
        obj_version is Some && obj_version->0 != s.last_obj_version ==> s.outdated(
            edits,
            obj_version,
            theme_changed,
        ),
        theme_changed == Some(true) ==> s.outdated(edits, obj_version, theme_changed),
        theme_changed is Some && !s.has_theme ==> s.outdated(edits, obj_version, theme_changed),
{
}

} // verus!
