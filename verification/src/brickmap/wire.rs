//! Wire format shared with the shaders: constants, palette packing, material entries, globals and
//! the direction reach table.

use crate::bits::{bit, join_mask, lemma_join_mask, set_bit, split_hi, split_lo};
use crate::math::IVec3;
use vstd::prelude::*;

verus! {

/// Voxels per chunk edge.
pub const CHUNK_SIZE: i32 = 256;

/// Children per axis of a node.
pub const BRICK_FACTOR: i32 = 4;

/// Splits from a chunk down to a voxel: 256 -> 64 -> 16 -> 4 -> 1.
pub const MAX_LEVEL: u32 = 4;

/// Chunks per axis that the dense index can address.
pub const CHUNK_INDEX_CAP: usize = 64;

/// Words of the dense chunk index.
pub const CHUNK_INDEX_WORDS: usize = 262144;

/// First word of the tree region.
pub const TREE_BASE: usize = CHUNK_INDEX_WORDS;

/// Bits of a palette index.
pub const PALETTE_BITS: usize = 16;

/// Entries of a palette.
pub const PALETTE_ENTRY_COUNT: usize = 65536;

/// Highest palette index.
pub const PALETTE_INDEX_MAX: u16 = 65535;

/// Words of a packed palette.
pub const PALETTE_WORDS: usize = 131072;

/// Voxels in an inline word.
pub const LEAF_VOXELS_PER_WORD: usize = 2;

/// Bytes of a packed palette entry.
pub const PALETTE_BYTES_PER_ENTRY: usize = 8;

/// Component bricks of a chunk.
pub const COMP_BRICKS_PER_CHUNK: usize = 4096;

/// Words of a chunk's component layer (two per word).
pub const CHUNK_COMP_WORDS: usize = 2048;

/// Words of a state table entry.
pub const STATE_WORDS_PER_ENTRY: usize = 4;

/// Entries of the state table.
pub const STATE_ENTRY_COUNT: usize = 256;

/// Words of the state table.
pub const STATE_TOTAL_WORDS: usize = 1024;

/// Marks a grid as one of the far levels.
pub const GRID_FLAG_FAR: u32 = 1;

/// Flag byte of a palette entry.
#[derive(Debug, Clone, Copy, PartialEq, Eq, Structural)]
pub struct PaletteFlags(pub u8);

/// The entry may not be edited.
pub const FLAG_LOCKED: u8 = 0x01;

/// The entry glows as a hologram.
pub const FLAG_HOLOGRAM: u8 = 0x08;

/// The entry refers to a material asset.
pub const FLAG_IS_PBR: u8 = 0x10;

/// Light passes through the entry.
pub const FLAG_TRANSMISSIVE: u8 = 0x20;

impl Default for PaletteFlags {
    fn default() -> (r: Self)
        ensures
            r.0 == 0,
    {
        PaletteFlags(0)
    }
}

impl PaletteFlags {
    /// All bits of `o` are set.
    pub fn contains(self, o: PaletteFlags) -> (r: bool)
        ensures
            r == (self.0 & o.0 == o.0),
    {
        self.0 & o.0 == o.0
    }

    /// Bits of either.
    pub fn union(self, o: PaletteFlags) -> (r: PaletteFlags)
        ensures
            r.0 == self.0 | o.0,
    {
        PaletteFlags(self.0 | o.0)
    }
}

/// Per-entry overrides of a material asset's scalars; 0 keeps the asset's value.
#[derive(Debug, Clone, Copy, PartialEq, Eq, Structural)]
pub struct PbrOverrides {
    pub roughness: u8,
    pub metallic: u8,
    pub emissive: u8,
    pub transmission: u8,
    pub specular: u8,
}

/// A palette entry: eight bytes whose meaning depends on [`FLAG_IS_PBR`].
#[derive(Debug, Clone, Copy, PartialEq, Eq)]
pub struct PaletteEntry {
    pub color: [u8; 3],
    pub roughness: u8,
    pub emissive: u8,
    pub transmission: u8,
    pub flags: PaletteFlags,
    pub metallic: u8,
}

impl Default for PaletteEntry {
    fn default() -> (r: Self)
        ensures
            r.is_blank(),
    {
        PaletteEntry {
            color: [0, 0, 0],
            roughness: 0,
            emissive: 0,
            transmission: 0,
            flags: PaletteFlags(0),
            metallic: 0,
        }
    }
}

impl PaletteEntry {
    /// Every byte of the entry is zero.
    pub open spec fn is_blank(&self) -> bool {
        &&& self.color@ == seq![0u8, 0u8, 0u8]
        &&& self.roughness == 0
        &&& self.emissive == 0
        &&& self.transmission == 0
        &&& self.flags.0 == 0
        &&& self.metallic == 0
    }

    /// The entry refers to a material asset.
    pub open spec fn is_pbr(&self) -> bool {
        self.flags.0 & FLAG_IS_PBR == FLAG_IS_PBR
    }

    /// An entry that refers to material `asset` with overrides `ov`.
    pub fn pbr(asset: u16, ov: PbrOverrides, flags: PaletteFlags) -> (r: Self)
        ensures
            r.is_pbr(),
            r.flags.0 == flags.0 | FLAG_IS_PBR,
            r.color@ == seq![ov.roughness, ov.metallic, ov.emissive],
            r.roughness == ov.transmission,
            r.metallic == ov.specular,
            r.emissive + 256 * r.transmission == asset,
    {
        proof {
            let f = flags.0;
            assert((f | 0x10u8) & 0x10u8 == 0x10u8) by (bit_vector);
            assert((asset & 0xFF) + 256 * (asset >> 8) == asset && (asset & 0xFF) < 256 && (asset >> 8)
                < 256) by (bit_vector);
        }
        PaletteEntry {
            color: [ov.roughness, ov.metallic, ov.emissive],
            roughness: ov.transmission,
            emissive: (asset & 0xFF) as u8,
            transmission: (asset >> 8) as u8,
            flags: flags.union(PaletteFlags(FLAG_IS_PBR)),
            metallic: ov.specular,
        }
    }

    /// The material asset of a PBR entry.
    pub fn pbr_asset(&self) -> (r: u16)
        ensures
            r == self.emissive + 256 * self.transmission,
    {
        (self.emissive as u16) + 256 * (self.transmission as u16)
    }

    /// The overrides of a PBR entry.
    pub fn pbr_overrides(&self) -> (r: PbrOverrides)
        ensures
            r == (PbrOverrides {
                roughness: self.color[0],
                metallic: self.color[1],
                emissive: self.color[2],
                transmission: self.roughness,
                specular: self.metallic,
            }),
    {
        PbrOverrides {
            roughness: self.color[0],
            metallic: self.color[1],
            emissive: self.color[2],
            transmission: self.roughness,
            specular: self.metallic,
        }
    }
}

/// A word from its four bytes, lowest first.
pub open spec fn word_of(a: u8, b: u8, c: u8, d: u8) -> int {
    a + 256 * b + 65536 * c + 16777216 * d
}

fn pack_bytes(a: u8, b: u8, c: u8, d: u8) -> (r: u32)
    ensures
        r == word_of(a, b, c, d),
{
    let (x, y, z, w): (u32, u32, u32, u32) = (a as u32, b as u32, c as u32, d as u32);
    assert(x | (y << 8) | (z << 16) | (w << 24) == x + 256 * y + 65536 * z + 16777216 * w)
        by (bit_vector)
        requires
            x < 256,
            y < 256,
            z < 256,
            w < 256,
    ;
    x | (y << 8) | (z << 16) | (w << 24)
}

/// The flag byte as packed: a plain entry with transmission always has the transmissive bit.
pub open spec fn packed_flags(e: PaletteEntry) -> u8 {
    if e.is_pbr() || e.transmission == 0 {
        e.flags.0
    } else {
        e.flags.0 | FLAG_TRANSMISSIVE
    }
}

/// Packs an entry into its two words.
///
/// Plain entries: `color.rgb, roughness` and `emissive, transmission, flags, metallic`. Entries that
/// refer to an asset keep the same byte places and their flags as given.
pub fn pack_palette_entry(e: &PaletteEntry) -> (r: [u32; 2])
    ensures
        r[0] == word_of(e.color[0], e.color[1], e.color[2], e.roughness),
        r[1] == word_of(e.emissive, e.transmission, packed_flags(*e), e.metallic),
{
    let mut flags: u8 = e.flags.0;
    if !e.flags.contains(PaletteFlags(FLAG_IS_PBR)) && e.transmission > 0 {
        flags = flags | FLAG_TRANSMISSIVE;
    }
    [
        pack_bytes(e.color[0], e.color[1], e.color[2], e.roughness),
        pack_bytes(e.emissive, e.transmission, flags, e.metallic),
    ]
}

/// Packs an entry that refers to material `asset`.
pub fn pack_palette_entry_pbr(asset: u16, ov: PbrOverrides, flags: PaletteFlags) -> (r: [u32; 2])
    ensures
        r[0] == word_of(ov.roughness, ov.metallic, ov.emissive, ov.transmission),
        r[1] == asset + 65536 * (flags.0 | FLAG_IS_PBR) + 16777216 * ov.specular,
{
    pack_palette_entry(&PaletteEntry::pbr(asset, ov, flags))
}

/// The four bytes of a word can be read back.
pub proof fn lemma_word_bytes(a: u8, b: u8, c: u8, d: u8)
    ensures
        0 <= word_of(a, b, c, d) <= u32::MAX,
        word_of(a, b, c, d) % 256 == a,
        word_of(a, b, c, d) / 256 % 256 == b,
        word_of(a, b, c, d) / 65536 % 256 == c,
        word_of(a, b, c, d) / 16777216 == d,
        word_of(a, b, c, d) % 65536 == a + 256 * b,
{
    let w = word_of(a, b, c, d);
    let r1 = b + 256 * c + 65536 * d;
    let r2 = c + 256 * d;
    assert(w == a + 256 * r1);
    assert(w % 256 == a && w / 256 == r1);
    assert(r1 == b + 256 * r2);
    assert(w == (a + 256 * b) + 65536 * r2);
    assert(w % 65536 == a + 256 * b && w / 65536 == r2);
    assert(w == (a + 256 * b + 65536 * c) + 16777216 * d);
}

/// What a PBR entry was made of can be read back from its words, whatever its flags: the five
/// overrides, the asset and the flags themselves.
pub proof fn lemma_pbr_words_read_back(
    w0: u32,
    w1: u32,
    asset: u16,
    ov: PbrOverrides,
    flags: PaletteFlags,
)
    requires
        w0 == word_of(ov.roughness, ov.metallic, ov.emissive, ov.transmission),
        w1 == asset + 65536 * (flags.0 | FLAG_IS_PBR) + 16777216 * ov.specular,
    ensures
        w0 as int % 256 == ov.roughness,
        w0 as int / 256 % 256 == ov.metallic,
        w0 as int / 65536 % 256 == ov.emissive,
        w0 as int / 16777216 == ov.transmission,
        w1 as int % 65536 == asset,
        w1 as int / 65536 % 256 == flags.0 | FLAG_IS_PBR,
        w1 as int / 16777216 == ov.specular,
{
    lemma_word_bytes(ov.roughness, ov.metallic, ov.emissive, ov.transmission);
}

/// Slot value of a material channel without a texture.
pub const MATERIAL_SLOT_NONE: u32 = 0xFFFF_FFFF;

/// Entry of the global material table: texture slots and the scalars used without a texture.
#[derive(Debug, Clone, Copy, PartialEq, Eq, Structural)]
pub struct MaterialAsset {
    pub albedo_slot: u32,
    pub roughmetal_slot: u32,
    pub emissive_slot: u32,
    pub transmission_slot: u32,
    pub height_slot: u32,
    /// `color.rgb | roughness << 24`
    pub albedo_rough: u32,
    /// `emissive | metallic << 8 | specular << 16 | displacement amplitude << 24`
    pub emissive_metal: u32,
    /// `transmission | ior * 100 << 16`
    pub transmission_ior: u32,
}

/// Bit offset of the displacement amplitude in [`MaterialAsset::emissive_metal`].
pub const MATERIAL_DISPLACE_AMPLITUDE_SHIFT: u32 = 24;

/// Mask of the displacement amplitude byte.
pub const MATERIAL_DISPLACE_AMPLITUDE_MASK: u32 = 0xFF;

impl Default for MaterialAsset {
    fn default() -> (r: Self)
        ensures
            r == (MaterialAsset {
                albedo_slot: 0,
                roughmetal_slot: 0,
                emissive_slot: 0,
                transmission_slot: 0,
                height_slot: 0,
                albedo_rough: 0,
                emissive_metal: 0,
                transmission_ior: 0,
            }),
    {
        MaterialAsset {
            albedo_slot: 0,
            roughmetal_slot: 0,
            emissive_slot: 0,
            transmission_slot: 0,
            height_slot: 0,
            albedo_rough: 0,
            emissive_metal: 0,
            transmission_ior: 0,
        }
    }
}

impl MaterialAsset {
    /// Peak-to-peak displacement in voxels; 0 means none.
    pub open spec fn amplitude(&self) -> int {
        self.emissive_metal as int / 16777216
    }

    pub fn displacement_amplitude(&self) -> (r: u8)
        ensures
            r == self.amplitude(),
    {
        let m: u32 = self.emissive_metal;
        assert((m >> 24) & 0xFF == m / 16777216 && (m >> 24) & 0xFF < 256) by (bit_vector);
        ((m >> MATERIAL_DISPLACE_AMPLITUDE_SHIFT) & MATERIAL_DISPLACE_AMPLITUDE_MASK) as u8
    }

    /// Sets the displacement amplitude and nothing else.
    pub fn with_displacement_amplitude(self, amplitude: u8) -> (r: Self)
        ensures
            r == (MaterialAsset { emissive_metal: r.emissive_metal, ..self }),
            r.emissive_metal == self.emissive_metal as int % 16777216 + 16777216 * amplitude,
            r.amplitude() == amplitude,
    {
        let m: u32 = self.emissive_metal;
        let a: u32 = amplitude as u32;
        assert((m & !(0xFFu32 << 24)) | (a << 24) == m % 16777216 + 16777216 * a) by (bit_vector)
            requires
                a < 256,
        ;
        MaterialAsset {
            albedo_slot: self.albedo_slot,
            roughmetal_slot: self.roughmetal_slot,
            emissive_slot: self.emissive_slot,
            transmission_slot: self.transmission_slot,
            height_slot: self.height_slot,
            albedo_rough: self.albedo_rough,
            emissive_metal: (m & !(MATERIAL_DISPLACE_AMPLITUDE_MASK
                << MATERIAL_DISPLACE_AMPLITUDE_SHIFT)) | (a << MATERIAL_DISPLACE_AMPLITUDE_SHIFT),
            transmission_ior: self.transmission_ior,
        }
    }
}

/// Uniform that describes one brick map.
#[derive(Debug, Clone, Copy, PartialEq, Eq, Structural)]
pub struct BrickMapGlobals {
    /// Window origin, in chunks.
    pub index_origin_x: i32,
    pub index_origin_y: i32,
    pub index_origin_z: i32,
    pub index_origin_w: i32,
    /// Window size, in chunks.
    pub index_dims_x: u32,
    pub index_dims_y: u32,
    pub index_dims_z: u32,
    pub index_dims_w: u32,
    /// Chunks with a tree block.
    pub tile_count: u32,
    /// Words of the tree region.
    pub node_words: u32,
    /// Free words of the tree region.
    pub node_free_words: u32,
    pub brick_slabs: u32,
    pub brick_free: u32,
    /// Chunks with content that the window does not reach.
    pub rejected_tiles: u32,
    /// Valid grid descriptors.
    pub grid_count: u32,
    pub _pad1: u32,
    pub _pad2: u32,
    pub _pad3: u32,
    pub _pad4: u32,
}

impl Default for BrickMapGlobals {
    fn default() -> (r: Self)
        ensures
            r == globals_for((IVec3 { x: 0, y: 0, z: 0 }), (IVec3 { x: 0, y: 0, z: 0 }), 0),
    {
        new_globals(IVec3::splat(0), IVec3::splat(0), 0)
    }
}

impl BrickMapGlobals {
    /// Fields without a meaning are 0, and no grid descriptor is counted yet.
    pub open spec fn rest_is_zero(&self) -> bool {
        &&& self.index_origin_w == 0
        &&& self.index_dims_w == 0
        &&& self.grid_count == 0
        &&& self._pad1 == 0
        &&& self._pad2 == 0
        &&& self._pad3 == 0
        &&& self._pad4 == 0
    }
}

/// Globals of a map without blocks.
pub open spec fn globals_for(origin: IVec3, dims: IVec3, rejected: u32) -> BrickMapGlobals {
    BrickMapGlobals {
        index_origin_x: origin.x,
        index_origin_y: origin.y,
        index_origin_z: origin.z,
        index_origin_w: 0,
        index_dims_x: dims.x as u32,
        index_dims_y: dims.y as u32,
        index_dims_z: dims.z as u32,
        index_dims_w: 0,
        tile_count: 0,
        node_words: 0,
        node_free_words: 0,
        brick_slabs: 0,
        brick_free: 0,
        rejected_tiles: rejected,
        grid_count: 0,
        _pad1: 0,
        _pad2: 0,
        _pad3: 0,
        _pad4: 0,
    }
}

pub fn new_globals(origin: IVec3, dims: IVec3, rejected: u32) -> (r: BrickMapGlobals)
    ensures
        r == globals_for(origin, dims, rejected),
{
    BrickMapGlobals {
        index_origin_x: origin.x,
        index_origin_y: origin.y,
        index_origin_z: origin.z,
        index_origin_w: 0,
        index_dims_x: dims.x as u32,
        index_dims_y: dims.y as u32,
        index_dims_z: dims.z as u32,
        index_dims_w: 0,
        tile_count: 0,
        node_words: 0,
        node_free_words: 0,
        brick_slabs: 0,
        brick_free: 0,
        rejected_tiles: rejected,
        grid_count: 0,
        _pad1: 0,
        _pad2: 0,
        _pad3: 0,
        _pad4: 0,
    }
}

/// Words to upload, as they are laid out on the GPU.
#[derive(Debug, Clone)]
pub struct BrickMapBuffers {
    /// Dense chunk index, then the tree blocks.
    pub b_struct: Vec<u32>,
    pub b_palette: Vec<u32>,
    pub globals: BrickMapGlobals,
}

/// Direction octants: bit 0, 1, 2 of an octant say that x, y, z is not negative.
pub const MARCH_MASK_OCTANTS: usize = 8;

/// Entry cells of a 4x4x4 brick, numbered `z * 16 + y * 4 + x`.
pub const MARCH_MASK_ENTRIES: usize = 64;

/// Words of one mask.
pub const MARCH_MASK_WORDS_PER_ENTRY: usize = 2;

/// Words of the reach table.
pub const MARCH_MASK_WORDS: usize = 1024;

/// Coordinate number `axis` of cell `p`.
pub open spec fn cell_coord(p: int, axis: int) -> int {
    if axis == 0 {
        p % 4
    } else if axis == 1 {
        p / 4 % 4
    } else {
        p / 16 % 4
    }
}

/// The octant looks up the axis.
pub open spec fn octant_up(oct: int, axis: int) -> bool {
    if axis == 0 {
        oct % 2 == 1
    } else if axis == 1 {
        oct / 2 % 2 == 1
    } else {
        oct / 4 % 2 == 1
    }
}

/// On one axis a ray reaches everything ahead of its entry cell, and one cell behind it.
pub open spec fn axis_reaches(up: bool, e: int, q: int) -> bool {
    if up {
        q >= e - 1
    } else {
        q <= e + 1
    }
}

/// Cells that a ray of octant `oct` which enters at cell `entry` may cross.
pub open spec fn march_reaches(oct: int, entry: int, p: int) -> bool {
    &&& axis_reaches(octant_up(oct, 0), cell_coord(entry, 0), cell_coord(p, 0))
    &&& axis_reaches(octant_up(oct, 1), cell_coord(entry, 1), cell_coord(p, 1))
    &&& axis_reaches(octant_up(oct, 2), cell_coord(entry, 2), cell_coord(p, 2))
}

/// The mask of `oct` and `entry` in a reach table.
pub open spec fn lut_mask(lut: Seq<u32>, oct: int, entry: int) -> u64 {
    join_mask(lut[oct * 128 + entry * 2], lut[oct * 128 + entry * 2 + 1])
}

/// A ray that moves only ahead from its entry cell stays in its mask: no cell it can cross is
/// culled.
pub proof fn lemma_reach_is_conservative(oct: int, entry: int, p: int)
    requires
        0 <= oct < 8,
        0 <= entry < 64,
        0 <= p < 64,
        forall|axis: int|
            0 <= axis < 3 ==> (if #[trigger] octant_up(oct, axis) {
                cell_coord(p, axis) >= cell_coord(entry, axis)
            } else {
                cell_coord(p, axis) <= cell_coord(entry, axis)
            }),
    ensures
        march_reaches(oct, entry, p),
{
    assert(octant_up(oct, 0) || !octant_up(oct, 0));
    assert(octant_up(oct, 1) || !octant_up(oct, 1));
    assert(octant_up(oct, 2) || !octant_up(oct, 2));
}

fn axis_ok(up: bool, e: u32, q: u32) -> (r: bool)
    requires
        e < 4,
        q < 4,
    ensures
        r == axis_reaches(up, e as int, q as int),
{
    if up {
        q + 1 >= e
    } else {
        q <= e + 1
    }
}

/// The reach mask of one octant and entry cell.
fn march_mask(oct: u32, entry: u32) -> (mask: u64)
    requires
        oct < 8,
        entry < 64,
    ensures
        forall|p: int| 0 <= p < 64 ==> (#[trigger] bit(mask, p) <==> march_reaches(
            oct as int,
            entry as int,
            p,
        )),
{
    let mut mask: u64 = 0;
    let mut p: u32 = 0;
    assert forall|j: int| 0 <= j < 64 implies !#[trigger] bit(mask, j) by {
        let k = j as u64;
        assert((0u64 >> k) & 1 == 0) by (bit_vector);
    }
    while p < 64
        invariant
            p <= 64,
            oct < 8,
            entry < 64,
            forall|j: int|
                0 <= j < 64 ==> (#[trigger] bit(mask, j) <==> j < p && march_reaches(
                    oct as int,
                    entry as int,
                    j,
                )),
        decreases 64 - p,
    {
        if axis_ok(oct % 2 == 1, entry % 4, p % 4) && axis_ok(
            oct / 2 % 2 == 1,
            entry / 4 % 4,
            p / 4 % 4,
        ) && axis_ok(oct / 4 % 2 == 1, entry / 16 % 4, p / 16 % 4) {
            mask = set_bit(mask, p);
        }
        p += 1;
    }
    mask
}

/// The reach table: for every octant and entry cell, the cells that a ray may cross.
pub fn march_mask_lut_words() -> (out: Vec<u32>)
    ensures
        out.len() == MARCH_MASK_WORDS,
        forall|oct: int, entry: int, p: int|
            0 <= oct < 8 && 0 <= entry < 64 && 0 <= p < 64 ==> (#[trigger] bit(
                lut_mask(out@, oct, entry),
                p,
            ) <==> march_reaches(oct, entry, p)),
{
    let mut out: Vec<u32> = Vec::with_capacity(MARCH_MASK_WORDS);
    let mut i: u32 = 0;
    while i < 512
        invariant
            i <= 512,
            out.len() == 2 * i,
            forall|oct: int, entry: int, p: int|
                0 <= oct < 8 && 0 <= entry < 64 && 0 <= p < 64 && oct * 64 + entry < i ==> (
                #[trigger] bit(lut_mask(out@, oct, entry), p) <==> march_reaches(oct, entry, p)),
        decreases 512 - i,
    {
        let (oct, entry): (u32, u32) = (i / 64, i % 64);
        let mask: u64 = march_mask(oct, entry);
        let ghost before = out@;
        out.push(split_lo(mask));
        out.push(split_hi(mask));
        proof {
            lemma_join_mask(mask);
            assert forall|o: int, e: int, p: int|
                0 <= o < 8 && 0 <= e < 64 && 0 <= p < 64 && o * 64 + e < i + 1 implies (
            #[trigger] bit(lut_mask(out@, o, e), p) <==> march_reaches(o, e, p)) by {
                if o * 64 + e < i {
                    assert(out@[o * 128 + e * 2] == before[o * 128 + e * 2]);
                    assert(out@[o * 128 + e * 2 + 1] == before[o * 128 + e * 2 + 1]);
                    assert(lut_mask(out@, o, e) == lut_mask(before, o, e));
                    assert(bit(lut_mask(before, o, e), p) <==> march_reaches(o, e, p));
                } else {
                    assert(o == oct && e == entry);
                    assert(lut_mask(out@, o, e) == mask);
                    assert(bit(mask, p) <==> march_reaches(oct as int, entry as int, p));
                }
            }
        }
        i += 1;
    }
    out
}

/// Packing keeps every flag of an entry and adds none but the transmissive one, which a plain entry
/// has exactly when it was given or light passes through it, and one with an asset when it was given.
pub proof fn lemma_packed_flags(e: PaletteEntry)
    ensures
        packed_flags(e) & e.flags.0 == e.flags.0,
        packed_flags(e) | FLAG_TRANSMISSIVE == e.flags.0 | FLAG_TRANSMISSIVE,
        packed_flags(e) & FLAG_TRANSMISSIVE != 0 <==> e.flags.0 & FLAG_TRANSMISSIVE != 0 || (
        e.flags.0 & FLAG_IS_PBR == 0 && e.transmission > 0),
{
    let f = e.flags.0;
    assert(f & f == f && (f | 0x20) & f == f && (f | 0x20) | 0x20 == f | 0x20 && (f | 0x20) & 0x20
        != 0 && (f & 0x10 == 0x10 <==> f & 0x10 != 0)) by (bit_vector);
}

/// The cells of a brick are numbered along `x` first, then `y`, then `z`.
pub proof fn lemma_brick_cells(x: int, y: int, z: int)
    requires
        0 <= x < 4,
        0 <= y < 4,
        0 <= z < 4,
    ensures
        cell_coord(x + 4 * y + 16 * z, 0) == x,
        cell_coord(x + 4 * y + 16 * z, 1) == y,
        cell_coord(x + 4 * y + 16 * z, 2) == z,
{
}

/// A ray that goes up on some axes and down on the others, and enters a brick at cell `(a, b, c)`, may
/// cross cell `(x, y, z)` exactly when that lies ahead of the entry, or at most one cell behind it, on
/// all three axes.
pub proof fn lemma_reach(up: (bool, bool, bool), a: int, b: int, c: int, x: int, y: int, z: int)
    requires
        0 <= a < 4 && 0 <= b < 4 && 0 <= c < 4,
        0 <= x < 4 && 0 <= y < 4 && 0 <= z < 4,
    ensures
        ({
            let oct = (if up.0 {
                1int
            } else {
                0
            }) + (if up.1 {
                2int
            } else {
                0
            }) + (if up.2 {
                4int
            } else {
                0
            });
            march_reaches(oct, a + 4 * b + 16 * c, x + 4 * y + 16 * z) <==> {
                &&& (up.0 ==> x - a >= -1) && (!up.0 ==> a - x >= -1)
                &&& (up.1 ==> y - b >= -1) && (!up.1 ==> b - y >= -1)
                &&& (up.2 ==> z - c >= -1) && (!up.2 ==> c - z >= -1)
            }
        }),
{
    lemma_brick_cells(a, b, c);
    lemma_brick_cells(x, y, z);
}

/// In a reach table the masks follow each other by octant and then by entry cell, each as two words,
/// the cells of the lower half first and a cell to a bit.
pub proof fn lemma_reach_words(lut: Seq<u32>, oct: int, entry: int, p: int)
    requires
        0 <= oct < 8,
        0 <= entry < 64,
        0 <= p < 64,
    ensures
        bit(lut_mask(lut, oct, entry), p) <==> (lut[2 * (64 * oct + entry) + p / 32] >> ((p
            % 32) as u32)) & 1 == 1,
{
    let (lo, hi) = (lut[oct * 128 + entry * 2], lut[oct * 128 + entry * 2 + 1]);
    let m = join_mask(lo, hi);
    let k = p as u64;
    if p < 32 {
        let i = p as u32;
        assert((m >> k) & 1 == 1 <==> (lo >> i) & 1 == 1) by (bit_vector)
            requires
                m == ((hi as u64) << 32) | (lo as u64),
                k == i as u64,
                i < 32,
        ;
    } else {
        let i = (p - 32) as u32;
        assert((m >> k) & 1 == 1 <==> (hi >> i) & 1 == 1) by (bit_vector)
            requires
                m == ((hi as u64) << 32) | (lo as u64),
                k == i as u64 + 32,
                i < 32,
        ;
    }
}

} // verus!
