//! Moving objects: several small voxel tiles packed into one pool.
//!
//! A tile is 32 cells of 16 voxels along each edge. Its words are an occupancy bit per cell, a
//! directory with the word of each cell's node, and the nodes. A node has a header: one colour for
//! the whole cell, or tables of 2, 4 and 8 slots along each edge, each finer than the one before,
//! and at last a slab with a byte per voxel. Slots are 16 bits, two to a word.

use crate::math::IVec3;
use vstd::prelude::*;

verus! {

/// Words of a tile's occupancy bits.
pub const TILE_BITMAP_WORDS: usize = 1024;

/// Words of a tile's directory.
pub const CELL_DIR_WORDS: usize = 32768;

/// Words of a slab: a byte per voxel of a cell.
pub const BRICK_SLAB_WORDS: usize = 1024;

/// Number of an object that is the world.
pub const OBJ_WORLD: u32 = 0xFFFF_FFFF;

/// Where the parts of a tile stand, and how headers and slots are read.
#[derive(Debug, Clone, Copy, PartialEq, Eq, Structural)]
pub struct TileFormat {
    pub bitmap_base: usize,
    pub dir_base: usize,
    pub node_stream_base: usize,
    pub palette_words: usize,
    /// Header bits of the cell's one colour; at most eight bits.
    pub uniform_mask: u32,
    pub has_l1: u32,
    pub has_l2: u32,
    pub has_l3: u32,
    pub has_brick: u32,
    /// A slot's tag is `(slot >> tag_shift) & tag_mask`.
    pub tag_shift: u32,
    pub tag_mask: u32,
    pub tag_empty: u32,
    pub tag_leaf: u32,
    /// A slot's colour is the low byte of `slot >> palette_shift`.
    pub palette_shift: u32,
}

/// One object's words.
#[derive(Debug)]
pub struct MovObject {
    pub b_struct: Vec<u32>,
    pub b_leaves: Vec<u32>,
    pub b_palette: Vec<u32>,
    pub tile_count: u32,
    pub node_words: u32,
    pub brick_slabs: u32,
}

/// Where an object's words stand in the pool.
#[derive(Debug, Clone, Copy, PartialEq, Eq, Structural)]
pub struct MovDesc {
    pub bitmap_base: u32,
    pub dir_base: u32,
    pub node_base: u32,
    /// First slab.
    pub leaves_base: u32,
    pub palette_base: u32,
}

/// All objects' words.
#[derive(Debug)]
pub struct MovPoolPacked {
    pub mov_struct: Vec<u32>,
    pub mov_leaves: Vec<u32>,
    pub mov_palette: Vec<u32>,
    pub descs: Vec<MovDesc>,
}

/// Up to `n` words from word `at` on.
pub open spec fn part(s: Seq<u32>, at: int, n: int) -> Seq<u32> {
    s.subrange(
        at,
        if at + n < s.len() {
            at + n
        } else {
            s.len() as int
        },
    )
}

impl MovObject {
    pub open spec fn bitmap(&self, f: TileFormat) -> Seq<u32> {
        part(self.b_struct@, f.bitmap_base as int, TILE_BITMAP_WORDS as int)
    }

    pub open spec fn dirs(&self, f: TileFormat) -> Seq<u32> {
        part(self.b_struct@, f.dir_base as int, CELL_DIR_WORDS as int)
    }

    pub open spec fn nodes(&self, f: TileFormat) -> Seq<u32> {
        part(self.b_struct@, f.node_stream_base as int, self.node_words as int)
    }

    pub open spec fn leaves(&self) -> Seq<u32> {
        part(self.b_leaves@, 0, self.brick_slabs * BRICK_SLAB_WORDS)
    }

    pub open spec fn palette(&self, f: TileFormat) -> Seq<u32> {
        part(self.b_palette@, 0, f.palette_words as int)
    }

    /// The object is one tile, and its parts can be told apart.
    pub open spec fn fits(&self, f: TileFormat) -> bool {
        &&& self.tile_count == 1
        &&& f.bitmap_base <= self.b_struct.len()
        &&& f.dir_base <= self.b_struct.len()
        &&& f.node_stream_base <= self.b_struct.len()
        &&& f.bitmap_base + TILE_BITMAP_WORDS <= usize::MAX
        &&& f.dir_base + CELL_DIR_WORDS <= usize::MAX
        &&& f.node_stream_base + self.node_words <= usize::MAX
        &&& self.brick_slabs * BRICK_SLAB_WORDS <= usize::MAX
    }
}

/// Words of the first `n` objects: bits, directory and nodes of each in turn.
pub open spec fn packed_struct(objs: Seq<MovObject>, f: TileFormat, n: nat) -> Seq<u32>
    decreases n,
{
    if n == 0 {
        Seq::empty()
    } else {
        let o = objs[n - 1];
        packed_struct(objs, f, (n - 1) as nat) + o.bitmap(f) + o.dirs(f) + o.nodes(f)
    }
}

pub open spec fn packed_leaves(objs: Seq<MovObject>, n: nat) -> Seq<u32>
    decreases n,
{
    if n == 0 {
        Seq::empty()
    } else {
        packed_leaves(objs, (n - 1) as nat) + objs[n - 1].leaves()
    }
}

pub open spec fn packed_palette(objs: Seq<MovObject>, f: TileFormat, n: nat) -> Seq<u32>
    decreases n,
{
    if n == 0 {
        Seq::empty()
    } else {
        packed_palette(objs, f, (n - 1) as nat) + objs[n - 1].palette(f)
    }
}

/// The descriptor of object `i`.
pub open spec fn packed_desc(objs: Seq<MovObject>, f: TileFormat, i: int) -> MovDesc {
    let at = packed_struct(objs, f, i as nat).len();
    let dir = at + objs[i].bitmap(f).len();
    MovDesc {
        bitmap_base: at as u32,
        dir_base: dir as u32,
        node_base: (dir + objs[i].dirs(f).len()) as u32,
        leaves_base: (packed_leaves(objs, i as nat).len() / 1024) as u32,
        palette_base: packed_palette(objs, f, i as nat).len() as u32,
    }
}

fn append_part(out: &mut Vec<u32>, s: &Vec<u32>, at: usize, n: usize)
    requires
        at <= s.len(),
        at + n <= usize::MAX,
    ensures
        final(out)@ == old(out)@ + part(s@, at as int, n as int),
{
    let end: usize = if at + n < s.len() { at + n } else { s.len() };
    let mut i: usize = at;
    assert(out@ =~= old(out)@ + s@.subrange(at as int, at as int));
    while i < end
        invariant
            at <= i <= end <= s.len(),
            out@ == old(out)@ + s@.subrange(at as int, i as int),
        decreases end - i,
    {
        out.push(s[i]);
        i += 1;
        assert(out@ =~= old(out)@ + s@.subrange(at as int, i as int));
    }
}

proof fn lemma_packed_mono(objs: Seq<MovObject>, f: TileFormat, a: nat, b: nat)
    requires
        a <= b,
    ensures
        packed_struct(objs, f, a).len() <= packed_struct(objs, f, b).len(),
        packed_leaves(objs, a).len() <= packed_leaves(objs, b).len(),
        packed_palette(objs, f, a).len() <= packed_palette(objs, f, b).len(),
    decreases b,
{
    if a < b {
        lemma_packed_mono(objs, f, a, (b - 1) as nat);
    }
}

/// Packs objects into a pool, one after the other.
pub fn pack_mov_pool(objs: &Vec<MovObject>, f: &TileFormat) -> (r: MovPoolPacked)
    requires
        forall|i: int| 0 <= i < objs.len() ==> (#[trigger] objs@[i]).fits(*f),
        packed_struct(objs@, *f, objs@.len()).len() <= u32::MAX,
        packed_leaves(objs@, objs@.len()).len() <= u32::MAX,
        packed_palette(objs@, *f, objs@.len()).len() <= u32::MAX,
    ensures
        r.mov_struct@ == packed_struct(objs@, *f, objs@.len()),
        r.mov_leaves@ == packed_leaves(objs@, objs@.len()),
        r.mov_palette@ == packed_palette(objs@, *f, objs@.len()),
        r.descs.len() == objs.len(),
        forall|i: int|
            0 <= i < objs.len() ==> #[trigger] r.descs@[i] == packed_desc(objs@, *f, i),
{
    let mut mov_struct: Vec<u32> = Vec::new();
    let mut mov_leaves: Vec<u32> = Vec::new();
    let mut mov_palette: Vec<u32> = Vec::new();
    let mut descs: Vec<MovDesc> = Vec::new();
    let mut i: usize = 0;
    while i < objs.len()
        invariant
            i <= objs.len(),
            forall|j: int| 0 <= j < objs.len() ==> (#[trigger] objs@[j]).fits(*f),
            packed_struct(objs@, *f, objs@.len()).len() <= u32::MAX,
            packed_leaves(objs@, objs@.len()).len() <= u32::MAX,
            packed_palette(objs@, *f, objs@.len()).len() <= u32::MAX,
            mov_struct@ == packed_struct(objs@, *f, i as nat),
            mov_leaves@ == packed_leaves(objs@, i as nat),
            mov_palette@ == packed_palette(objs@, *f, i as nat),
            descs.len() == i,
            forall|j: int| 0 <= j < i ==> #[trigger] descs@[j] == packed_desc(objs@, *f, j),
        decreases objs.len() - i,
    {
        let o: &MovObject = &objs[i];
        proof {
            assert(objs@[i as int].fits(*f));
            lemma_packed_mono(objs@, *f, i as nat, objs@.len());
            lemma_packed_mono(objs@, *f, (i + 1) as nat, objs@.len());
        }
        let bitmap_base: usize = mov_struct.len();
        let leaves_base: usize = mov_leaves.len() / BRICK_SLAB_WORDS;
        let palette_base: usize = mov_palette.len();
        append_part(&mut mov_struct, &o.b_struct, f.bitmap_base, TILE_BITMAP_WORDS);
        let dir_base: usize = mov_struct.len();
        append_part(&mut mov_struct, &o.b_struct, f.dir_base, CELL_DIR_WORDS);
        let node_base: usize = mov_struct.len();
        append_part(&mut mov_struct, &o.b_struct, f.node_stream_base, o.node_words as usize);
        append_part(&mut mov_leaves, &o.b_leaves, 0, o.brick_slabs as usize * BRICK_SLAB_WORDS);
        append_part(&mut mov_palette, &o.b_palette, 0, f.palette_words);
        descs.push(
            MovDesc {
                bitmap_base: bitmap_base as u32,
                dir_base: dir_base as u32,
                node_base: node_base as u32,
                leaves_base: leaves_base as u32,
                palette_base: palette_base as u32,
            },
        );
        i += 1;
    }
    MovPoolPacked { mov_struct, mov_leaves, mov_palette, descs }
}

/// The first `n` objects hold whole slabs.
pub open spec fn whole_slabs(objs: Seq<MovObject>, n: int) -> bool {
    forall|j: int|
        0 <= j < n ==> (#[trigger] objs[j]).leaves().len() as int % BRICK_SLAB_WORDS as int == 0
}

proof fn lemma_whole_slabs(objs: Seq<MovObject>, n: int)
    requires
        0 <= n <= objs.len(),
        whole_slabs(objs, n),
    ensures
        packed_leaves(objs, n as nat).len() as int % BRICK_SLAB_WORDS as int == 0,
    decreases n,
{
    if n > 0 {
        lemma_whole_slabs(objs, n - 1);
    }
}

/// What packing keeps: every object's parts stand in the pool where its descriptor says. Slabs are
/// counted whole: where the objects before hold whole slabs, those of the object stand where they
/// are said to.
pub proof fn lemma_parts_stand(objs: Seq<MovObject>, f: TileFormat, n: nat, i: int)
    requires
        0 <= i < n <= objs.len(),
        packed_struct(objs, f, n).len() <= u32::MAX,
        packed_palette(objs, f, n).len() <= u32::MAX,
        packed_leaves(objs, n).len() <= u32::MAX,
    ensures
        ({
            let d = packed_desc(objs, f, i);
            let o = objs[i];
            let s = packed_struct(objs, f, n);
            let p = packed_palette(objs, f, n);
            &&& d.bitmap_base + o.bitmap(f).len() == d.dir_base
            &&& d.dir_base + o.dirs(f).len() == d.node_base
            &&& d.node_base + o.nodes(f).len() <= s.len()
            &&& s.subrange(d.bitmap_base as int, d.dir_base as int) == o.bitmap(f)
            &&& s.subrange(d.dir_base as int, d.node_base as int) == o.dirs(f)
            &&& s.subrange(d.node_base as int, d.node_base + o.nodes(f).len()) == o.nodes(f)
            &&& d.palette_base + o.palette(f).len() <= p.len()
            &&& p.subrange(d.palette_base as int, d.palette_base + o.palette(f).len()) == o.palette(f)
            &&& whole_slabs(objs, i) ==> {
                let l = packed_leaves(objs, n);
                let at = d.leaves_base * BRICK_SLAB_WORDS;
                &&& at + o.leaves().len() <= l.len()
                &&& l.subrange(at, at + o.leaves().len()) == o.leaves()
            }
        }),
    decreases n,
{
    let d = packed_desc(objs, f, i);
    let o = objs[i];
    let s = packed_struct(objs, f, n);
    let p = packed_palette(objs, f, n);
    let l = packed_leaves(objs, n);
    let at = d.leaves_base * BRICK_SLAB_WORDS;
    if whole_slabs(objs, i) {
        lemma_whole_slabs(objs, i);
    }
    lemma_packed_mono(objs, f, i as nat, n);
    lemma_packed_mono(objs, f, (i + 1) as nat, n);
    lemma_packed_mono(objs, f, (n - 1) as nat, n);
    if i == n - 1 {
        assert(s.subrange(d.bitmap_base as int, d.dir_base as int) =~= o.bitmap(f));
        assert(s.subrange(d.dir_base as int, d.node_base as int) =~= o.dirs(f));
        assert(s.subrange(d.node_base as int, d.node_base + o.nodes(f).len()) =~= o.nodes(f));
        assert(p.subrange(d.palette_base as int, d.palette_base + o.palette(f).len()) =~= o.palette(f));
        if whole_slabs(objs, i) {
            assert(l.subrange(at, at + o.leaves().len()) =~= o.leaves());
        }
    } else {
        lemma_parts_stand(objs, f, (n - 1) as nat, i);
        let s0 = packed_struct(objs, f, (n - 1) as nat);
        let p0 = packed_palette(objs, f, (n - 1) as nat);
        assert(forall|k: int| 0 <= k < s0.len() ==> #[trigger] s[k] == s0[k]);
        assert(forall|k: int| 0 <= k < p0.len() ==> #[trigger] p[k] == p0[k]);
        assert(s.subrange(d.bitmap_base as int, d.dir_base as int) =~= s0.subrange(
            d.bitmap_base as int,
            d.dir_base as int,
        ));
        assert(s.subrange(d.dir_base as int, d.node_base as int) =~= s0.subrange(
            d.dir_base as int,
            d.node_base as int,
        ));
        assert(s.subrange(d.node_base as int, d.node_base + o.nodes(f).len()) =~= s0.subrange(
            d.node_base as int,
            d.node_base + o.nodes(f).len(),
        ));
        assert(p.subrange(d.palette_base as int, d.palette_base + o.palette(f).len())
            =~= p0.subrange(d.palette_base as int, d.palette_base + o.palette(f).len()));
        if whole_slabs(objs, i) {
            let l0 = packed_leaves(objs, (n - 1) as nat);
            assert(forall|k: int| 0 <= k < l0.len() ==> #[trigger] l[k] == l0[k]);
            assert(l.subrange(at, at + o.leaves().len()) =~= l0.subrange(at, at + o.leaves().len()));
        }
    }
}

/// Number of a cell in its tile: `x` runs fastest.
pub open spec fn cell_number(x: int, y: int, z: int) -> int {
    z * 1024 + y * 32 + x
}

/// The tile's bit of a cell is set.
pub open spec fn occupied(words: Seq<u32>, base: int, cell: int) -> bool {
    (words[base + cell / 32] >> ((cell % 32) as u32)) & 1 != 0
}

/// Whether a cell of an object holds anything.
pub fn obj_cell_occupied(pool: &MovPoolPacked, dsc: &MovDesc, cc: [u32; 3]) -> (r: bool)
    requires
        cc[0] < 32,
        cc[1] < 32,
        cc[2] < 32,
        dsc.bitmap_base + TILE_BITMAP_WORDS <= pool.mov_struct.len(),
    ensures
        r == occupied(
            pool.mov_struct@,
            dsc.bitmap_base as int,
            cell_number(cc[0] as int, cc[1] as int, cc[2] as int),
        ),
{
    let ci: u32 = cc[2] * 1024 + cc[1] * 32 + cc[0];
    let w: u32 = pool.mov_struct[dsc.bitmap_base as usize + (ci / 32) as usize];
    (w >> (ci % 32)) & 1 != 0
}

/// The next cell along an axis; `None` outside the tile.
pub fn step_cell(cc: [u32; 3], axis: usize, up: bool) -> (r: Option<[u32; 3]>)
    requires
        axis < 3,
        cc[0] < 32,
        cc[1] < 32,
        cc[2] < 32,
    ensures
        match r {
            None => if up {
                cc[axis as int] == 31
            } else {
                cc[axis as int] == 0
            },
            Some(n) => {
                &&& n[axis as int] == cc[axis as int] + (if up {
                    1int
                } else {
                    -1
                })
                &&& n[axis as int] < 32
                &&& forall|i: int| 0 <= i < 3 && i != axis ==> #[trigger] n[i] == cc[i]
            },
        },
{
    let c: u32 = cc[axis];
    if up && c == 31 || !up && c == 0 {
        return None;
    }
    let d: u32 = if up { c + 1 } else { c - 1 };
    Some(
        [
            if axis == 0 { d } else { cc[0] },
            if axis == 1 { d } else { cc[1] },
            if axis == 2 { d } else { cc[2] },
        ],
    )
}

/// A slot of a table.
pub open spec fn slot_of(words: Seq<u32>, table: int, i: int) -> u32 {
    let w = words[table + i / 2];
    if i % 2 == 0 {
        w & 0xFFFF
    } else {
        w >> 16
    }
}

/// What a slot says.
pub enum SlotModel {
    /// Air, or one colour.
    Colour(u8),
    /// Look in the next table.
    Finer,
}

impl TileFormat {
    pub open spec fn shifts_fit(self) -> bool {
        self.tag_shift < 32 && self.palette_shift < 32 && self.uniform_mask <= 255
    }

    pub open spec fn read_slot(self, slot: u32) -> SlotModel {
        let tag = (slot >> self.tag_shift) & self.tag_mask;
        if tag == self.tag_empty {
            SlotModel::Colour(0)
        } else if tag == self.tag_leaf {
            SlotModel::Colour(((slot >> self.palette_shift) & 0xFF) as u8)
        } else {
            SlotModel::Finer
        }
    }
}

/// Number of a slot in a table of `axis` slots per edge.
pub open spec fn slot_number(x: int, y: int, z: int, axis: int) -> int {
    x + y * axis + z * axis * axis
}

/// Byte of a voxel in the slabs.
pub open spec fn slab_byte(leaves: Seq<u32>, slab: int, x: int, y: int, z: int) -> u8 {
    let i = x + y * 16 + z * 256;
    ((leaves[slab * 1024 + i / 4] >> ((i % 4 * 8) as u32)) & 0xFF) as u8
}

/// The colour of voxel `(x, y, z)` of a cell whose node stands at `p`.
pub open spec fn node_colour(
    words: Seq<u32>,
    leaves: Seq<u32>,
    leaves_base: int,
    f: TileFormat,
    p: int,
    x: int,
    y: int,
    z: int,
) -> u8 {
    let hdr = words[p];
    if hdr & f.uniform_mask != 0 {
        (hdr & f.uniform_mask) as u8
    } else if hdr & f.has_l1 == 0 {
        0
    } else {
        match f.read_slot(slot_of(words, p + 1, slot_number(x / 8, y / 8, z / 8, 2))) {
            SlotModel::Colour(c) => c,
            SlotModel::Finer => if hdr & f.has_l2 == 0 {
                0
            } else {
                match f.read_slot(slot_of(words, p + 5, slot_number(x / 4, y / 4, z / 4, 4))) {
                    SlotModel::Colour(c) => c,
                    SlotModel::Finer => if hdr & f.has_l3 == 0 {
                        0
                    } else {
                        match f.read_slot(
                            slot_of(words, p + 37, slot_number(x / 2, y / 2, z / 2, 8)),
                        ) {
                            SlotModel::Colour(c) => c,
                            SlotModel::Finer => if hdr & f.has_brick == 0 || words[p + 293] == 0 {
                                0
                            } else {
                                slab_byte(leaves, words[p + 293] - 1 + leaves_base, x, y, z)
                            },
                        }
                    },
                }
            },
        }
    }
}

/// What a node's header announces lies in the pool: its tables, one behind the other, and its slab.
pub open spec fn node_readable(
    words: Seq<u32>,
    leaves: Seq<u32>,
    leaves_base: int,
    f: TileFormat,
    p: int,
) -> bool {
    let hdr = words[p];
    &&& 0 <= p < words.len()
    &&& hdr & f.uniform_mask == 0 && hdr & f.has_l1 != 0 ==> {
        &&& p + 5 <= words.len()
        &&& hdr & f.has_l2 != 0 ==> {
            &&& p + 37 <= words.len()
            &&& hdr & f.has_l3 != 0 ==> {
                &&& p + 293 <= words.len()
                &&& hdr & f.has_brick != 0 ==> {
                    &&& p + 294 <= words.len()
                    &&& words[p + 293] > 0 ==> (words[p + 293] + leaves_base) * 1024 <= leaves.len()
                }
            }
        }
    }
}

/// The node of a cell: where its directory entry points.
pub open spec fn cell_node(pool: MovPoolPacked, d: MovDesc, f: TileFormat, cell: int) -> int {
    d.node_base + pool.mov_struct@[d.dir_base + cell] - f.node_stream_base
}

/// What a cell leads to lies in the pool.
pub open spec fn cell_readable(pool: MovPoolPacked, d: MovDesc, f: TileFormat, cell: int) -> bool {
    occupied(pool.mov_struct@, d.bitmap_base as int, cell) && pool.mov_struct@[d.dir_base + cell] != 0
        ==> pool.mov_struct@[d.dir_base + cell] >= f.node_stream_base && node_readable(
        pool.mov_struct@,
        pool.mov_leaves@,
        d.leaves_base as int,
        f,
        cell_node(pool, d, f, cell),
    )
}

/// Everything that the object's cells lead to lies in the pool.
pub open spec fn object_readable(pool: MovPoolPacked, d: MovDesc, f: TileFormat) -> bool {
    &&& f.shifts_fit()
    &&& d.bitmap_base + TILE_BITMAP_WORDS <= pool.mov_struct.len()
    &&& d.dir_base + CELL_DIR_WORDS <= pool.mov_struct.len()
    &&& forall|cell: int| 0 <= cell < 32768 ==> #[trigger] cell_readable(pool, d, f, cell)
}

/// `c` moved into the tile.
pub open spec fn into_tile(c: int) -> int {
    if c < 0 {
        0
    } else if c > 511 {
        511
    } else {
        c
    }
}

/// The colour of a voxel of an object; voxels outside the tile read as the nearest one inside.
pub open spec fn object_colour(pool: MovPoolPacked, d: MovDesc, f: TileFormat, v: IVec3) -> u8 {
    let (x, y, z) = (into_tile(v.x as int), into_tile(v.y as int), into_tile(v.z as int));
    let cell = cell_number(x / 16, y / 16, z / 16);
    if !occupied(pool.mov_struct@, d.bitmap_base as int, cell) || pool.mov_struct@[d.dir_base + cell]
        == 0 {
        0
    } else {
        node_colour(
            pool.mov_struct@,
            pool.mov_leaves@,
            d.leaves_base as int,
            f,
            cell_node(pool, d, f, cell),
            x % 16,
            y % 16,
            z % 16,
        )
    }
}

fn read_slot_word(words: &Vec<u32>, table: usize, i: usize) -> (r: u32)
    requires
        table + i / 2 < words.len(),
    ensures
        r == slot_of(words@, table as int, i as int),
{
    let w: u32 = words[table + i / 2];
    if i % 2 == 0 {
        w & 0xFFFF
    } else {
        w >> 16
    }
}

/// The colour that a slot has, or `None` where it leads on.
fn slot_colour(f: &TileFormat, slot: u32) -> (r: Option<u8>)
    requires
        f.shifts_fit(),
    ensures
        match r {
            Some(c) => f.read_slot(slot) == SlotModel::Colour(c),
            None => f.read_slot(slot) == SlotModel::Finer,
        },
{
    let tag: u32 = (slot >> f.tag_shift) & f.tag_mask;
    if tag == f.tag_empty {
        Some(0)
    } else if tag == f.tag_leaf {
        Some(((slot >> f.palette_shift) & 0xFF) as u8)
    } else {
        None
    }
}

fn clamp_tile(c: i32) -> (r: usize)
    ensures
        r == into_tile(c as int),
{
    if c < 0 {
        0
    } else if c > 511 {
        511
    } else {
        c as usize
    }
}

fn slot_index(x: usize, y: usize, z: usize, axis: usize) -> (r: usize)
    requires
        axis == 2 || axis == 4 || axis == 8,
        x < axis,
        y < axis,
        z < axis,
    ensures
        r == slot_number(x as int, y as int, z as int, axis as int),
        r < axis * axis * axis,
{
    if axis == 2 {
        x + y * 2 + z * 4
    } else if axis == 4 {
        x + y * 4 + z * 16
    } else {
        x + y * 8 + z * 64
    }
}

fn read_slab(leaves: &Vec<u32>, slab: usize, x: usize, y: usize, z: usize) -> (r: u8)
    requires
        x < 16,
        y < 16,
        z < 16,
        (slab + 1) * 1024 <= leaves.len(),
    ensures
        r == slab_byte(leaves@, slab as int, x as int, y as int, z as int),
{
    let i: usize = x + y * 16 + z * 256;
    let w: u32 = leaves[slab * BRICK_SLAB_WORDS + i / 4];
    ((w >> ((i % 4 * 8) as u32)) & 0xFF) as u8
}

/// The colour of a voxel of a node.
fn read_node(
    words: &Vec<u32>,
    leaves: &Vec<u32>,
    leaves_base: u32,
    f: &TileFormat,
    p: usize,
    x: usize,
    y: usize,
    z: usize,
) -> (r: u8)
    requires
        f.shifts_fit(),
        node_readable(words@, leaves@, leaves_base as int, *f, p as int),
        x < 16,
        y < 16,
        z < 16,
    ensures
        r == node_colour(
            words@,
            leaves@,
            leaves_base as int,
            *f,
            p as int,
            x as int,
            y as int,
            z as int,
        ),
{
    assert(words.len() <= usize::MAX);
    let hdr: u32 = words[p];
    if hdr & f.uniform_mask != 0 {
        return (hdr & f.uniform_mask) as u8;
    }
    if hdr & f.has_l1 == 0 {
        return 0;
    }
    let i1: usize = slot_index(x / 8, y / 8, z / 8, 2);
    if let Some(c) = slot_colour(f, read_slot_word(words, p + 1, i1)) {
        return c;
    }
    if hdr & f.has_l2 == 0 {
        return 0;
    }
    let i2: usize = slot_index(x / 4, y / 4, z / 4, 4);
    if let Some(c) = slot_colour(f, read_slot_word(words, p + 5, i2)) {
        return c;
    }
    if hdr & f.has_l3 == 0 {
        return 0;
    }
    let i3: usize = slot_index(x / 2, y / 2, z / 2, 8);
    if let Some(c) = slot_colour(f, read_slot_word(words, p + 37, i3)) {
        return c;
    }
    if hdr & f.has_brick == 0 {
        return 0;
    }
    let slab1: u32 = words[p + 293];
    if slab1 == 0 {
        return 0;
    }
    assert((slab1 + leaves_base) * 1024 <= leaves.len());
    let slab: usize = (slab1 - 1) as usize + leaves_base as usize;
    read_slab(leaves, slab, x, y, z)
}

/// Whether what a node's header announces lies in the pool.
fn node_fits(words: &Vec<u32>, leaves: &Vec<u32>, leaves_base: u32, f: &TileFormat, p: usize) -> (r: bool)
    ensures
        r == node_readable(words@, leaves@, leaves_base as int, *f, p as int),
{
    if p >= words.len() {
        return false;
    }
    let hdr: u32 = words[p];
    let left: usize = words.len() - p;
    if hdr & f.uniform_mask != 0 || hdr & f.has_l1 == 0 {
        return true;
    }
    if hdr & f.has_l2 == 0 {
        return left >= 5;
    }
    if hdr & f.has_l3 == 0 {
        return left >= 37;
    }
    if hdr & f.has_brick == 0 {
        return left >= 293;
    }
    if left < 294 {
        return false;
    }
    let slab1: u32 = words[p + 293];
    slab1 == 0 || slab1 as u64 + leaves_base as u64 <= (leaves.len() / BRICK_SLAB_WORDS) as u64
}

/// Whether everything that the object's cells lead to lies in the pool.
pub fn object_fits(pool: &MovPoolPacked, dsc: &MovDesc, f: &TileFormat) -> (r: bool)
    ensures
        r == object_readable(*pool, *dsc, *f),
{
    let len: usize = pool.mov_struct.len();
    if f.tag_shift >= 32 || f.palette_shift >= 32 || f.uniform_mask > 255 {
        return false;
    }
    if len < TILE_BITMAP_WORDS || dsc.bitmap_base as usize > len - TILE_BITMAP_WORDS || len
        < CELL_DIR_WORDS || dsc.dir_base as usize > len - CELL_DIR_WORDS {
        return false;
    }
    let mut cell: u32 = 0;
    while cell < 32768
        invariant
            cell <= 32768,
            len == pool.mov_struct.len(),
            dsc.bitmap_base + TILE_BITMAP_WORDS <= len,
            dsc.dir_base + CELL_DIR_WORDS <= len,
            forall|c: int| 0 <= c < cell ==> #[trigger] cell_readable(*pool, *dsc, *f, c),
        decreases 32768 - cell,
    {
        let w: u32 = pool.mov_struct[dsc.bitmap_base as usize + (cell / 32) as usize];
        let at: u32 = pool.mov_struct[dsc.dir_base as usize + cell as usize];
        if (w >> (cell % 32)) & 1 != 0 && at != 0 {
            assert(occupied(pool.mov_struct@, dsc.bitmap_base as int, cell as int));
            if (at as usize) < f.node_stream_base {
                assert(!cell_readable(*pool, *dsc, *f, cell as int));
                return false;
            }
            let off: usize = at as usize - f.node_stream_base;
            if off >= len || dsc.node_base as usize >= len - off || !node_fits(
                &pool.mov_struct,
                &pool.mov_leaves,
                dsc.leaves_base,
                f,
                dsc.node_base as usize + off,
            ) {
                assert(!cell_readable(*pool, *dsc, *f, cell as int));
                return false;
            }
        }
        assert(cell_readable(*pool, *dsc, *f, cell as int));
        cell += 1;
    }
    true
}

/// The colour of a voxel of an object, 0 for air.
#[verifier::spinoff_prover]
pub fn obj_sample_voxel(pool: &MovPoolPacked, dsc: &MovDesc, f: &TileFormat, fine: IVec3) -> (r: u8)
    requires
        object_readable(*pool, *dsc, *f),
    ensures
        r == object_colour(*pool, *dsc, *f, fine),
{
    let x: usize = clamp_tile(fine.x);
    let y: usize = clamp_tile(fine.y);
    let z: usize = clamp_tile(fine.z);
    let cc: [u32; 3] = [(x / 16) as u32, (y / 16) as u32, (z / 16) as u32];
    if !obj_cell_occupied(pool, dsc, cc) {
        return 0;
    }
    let ci: usize = z / 16 * 1024 + y / 16 * 32 + x / 16;
    let at: u32 = pool.mov_struct[dsc.dir_base as usize + ci];
    if at == 0 {
        return 0;
    }
    assert(cell_readable(*pool, *dsc, *f, ci as int));
    let p: usize = dsc.node_base as usize + (at as usize - f.node_stream_base);
    read_node(&pool.mov_struct, &pool.mov_leaves, dsc.leaves_base, f, p, x % 16, y % 16, z % 16)
}

/// Voxels that a ray may cross in a cell, with some to spare.
pub const FINE_STEPS: u32 = 48;

/// Cells that a ray may cross in a tile.
pub const CELL_STEPS: u32 = 96;

/// A ray's walk through the voxels of a cell.
#[derive(Debug, Clone, Copy)]
pub struct FineScan {
    pub at: IVec3,
    /// The ray goes up along an axis.
    pub up: [bool; 3],
    /// Voxels that may still be looked at.
    pub left: u32,
}

/// `c` moved into the cell that starts at `lo`.
pub open spec fn into_fine_cell(c: int, lo: int) -> int {
    if c < lo {
        lo
    } else if c > lo + 15 {
        lo + 15
    } else {
        c
    }
}

fn clamp_fine(c: i32, cell: u32) -> (r: i32)
    requires
        cell < 32,
    ensures
        r == into_fine_cell(c as int, cell * 16),
{
    let lo: i32 = cell as i32 * 16;
    if c < lo {
        lo
    } else if c > lo + 15 {
        lo + 15
    } else {
        c
    }
}

/// `p` moved into cell `cc`.
pub open spec fn scan_start(p: IVec3, cc: Seq<u32>) -> IVec3 {
    IVec3 {
        x: into_fine_cell(p.x as int, cc[0] * 16) as i32,
        y: into_fine_cell(p.y as int, cc[1] * 16) as i32,
        z: into_fine_cell(p.z as int, cc[2] * 16) as i32,
    }
}

impl FineScan {
    /// A walk stays near its tile.
    pub open spec fn wf(&self) -> bool {
        let out = FINE_STEPS - self.left;
        &&& self.left <= FINE_STEPS
        &&& -out <= self.at.x <= 511 + out
        &&& -out <= self.at.y <= 511 + out
        &&& -out <= self.at.z <= 511 + out
    }

    /// Starts at the voxel `p`, moved into the cell.
    pub fn new(p: IVec3, cc: [u32; 3], up: [bool; 3]) -> (r: Self)
        requires
            cc[0] < 32,
            cc[1] < 32,
            cc[2] < 32,
        ensures
            r.wf(),
            r.at == scan_start(p, cc@),
            r.at.x == into_fine_cell(p.x as int, cc[0] * 16),
            r.at.y == into_fine_cell(p.y as int, cc[1] * 16),
            r.at.z == into_fine_cell(p.z as int, cc[2] * 16),
            r.up == up,
            r.left == FINE_STEPS,
    {
        FineScan {
            at: IVec3::new(clamp_fine(p.x, cc[0]), clamp_fine(p.y, cc[1]), clamp_fine(p.z, cc[2])),
            up,
            left: FINE_STEPS,
        }
    }

    /// Goes to the next voxel along an axis; `false`, and nothing happens, where the walk is over.
    pub fn step(&mut self, axis: usize) -> (r: bool)
        requires
            old(self).wf(),
            axis < 3,
        ensures
            final(self).wf(),
            final(self).up == old(self).up,
            r == (old(self).left > 0),
            !r ==> *final(self) == *old(self),
            r ==> {
                let d: int = if old(self).up@[axis as int] {
                    1
                } else {
                    -1
                };
                &&& final(self).left == old(self).left - 1
                &&& final(self).at.x == old(self).at.x + (if axis == 0 {
                    d
                } else {
                    0
                })
                &&& final(self).at.y == old(self).at.y + (if axis == 1 {
                    d
                } else {
                    0
                })
                &&& final(self).at.z == old(self).at.z + (if axis == 2 {
                    d
                } else {
                    0
                })
            },
    {
        if self.left == 0 {
            return false;
        }
        let d: i32 = if self.up[axis] { 1 } else { -1 };
        if axis == 0 {
            self.at.x = self.at.x + d;
        } else if axis == 1 {
            self.at.y = self.at.y + d;
        } else {
            self.at.z = self.at.z + d;
        }
        self.left = self.left - 1;
        true
    }

    /// The colour of the voxel where the walk is, 0 for air.
    pub fn look(&self, pool: &MovPoolPacked, dsc: &MovDesc, f: &TileFormat) -> (r: u8)
        requires
            object_readable(*pool, *dsc, *f),
        ensures
            r == object_colour(*pool, *dsc, *f, self.at),
    {
        obj_sample_voxel(pool, dsc, f, self.at)
    }
}

/// Byte `j` of a word, lowest first.
pub open spec fn low_byte(w: u32, j: int) -> int {
    if j == 0 {
        w as int % 256
    } else if j == 1 {
        w as int / 256 % 256
    } else if j == 2 {
        w as int / 65536 % 256
    } else {
        w as int / 16777216
    }
}

/// Half `j` of a word, lowest first.
pub open spec fn low_half(w: u32, j: int) -> int {
    if j == 0 {
        w as int % 65536
    } else {
        w as int / 65536
    }
}

/// Slot `n` of a table, two to a word.
pub open spec fn table_slot(words: Seq<u32>, table: int, n: int) -> u32 {
    low_half(words[table + n / 2], n % 2) as u32
}

/// Byte `n` of a slab, four to a word.
pub open spec fn slab_content(leaves: Seq<u32>, slab: int, n: int) -> int {
    low_byte(leaves[1024 * slab + n / 4], n % 4)
}

impl TileFormat {
    pub open spec fn tag(self, slot: u32) -> u32 {
        (slot >> self.tag_shift) & self.tag_mask
    }

    /// The slot leads on to a finer table.
    pub open spec fn leads_on(self, slot: u32) -> bool {
        self.tag(slot) != self.tag_empty && self.tag(slot) != self.tag_leaf
    }
}

proof fn lemma_table_slot(words: Seq<u32>, table: int, n: int)
    requires
        0 <= n,
    ensures
        slot_of(words, table, n) == table_slot(words, table, n),
{
    let w = words[table + n / 2];
    assert(w & 0xFFFF == w % 65536 && w >> 16 == w / 65536) by (bit_vector);
}

/// A slab whose bytes are given by a function of the position, `x` first, then `y`, then `z`, reads
/// as that function at each of its voxels.
pub proof fn lemma_slab_reads_its_voxels(
    leaves: Seq<u32>,
    slab: int,
    g: spec_fn(int, int, int) -> u8,
    x: int,
    y: int,
    z: int,
)
    requires
        0 <= x < 16,
        0 <= y < 16,
        0 <= z < 16,
        forall|a: int, b: int, c: int|
            0 <= a < 16 && 0 <= b < 16 && 0 <= c < 16 ==> #[trigger] g(a, b, c) == slab_content(
                leaves,
                slab,
                a + 16 * b + 256 * c,
            ),
    ensures
        slab_byte(leaves, slab, x, y, z) == g(x, y, z),
{
    let n = x + 16 * y + 256 * z;
    let w = leaves[1024 * slab + n / 4];
    assert(g(x, y, z) == slab_content(leaves, slab, n));
    assert((w >> 0) & 0xFF == w % 256 && (w >> 8) & 0xFF == (w / 256) % 256 && (w >> 16) & 0xFF == (w
        / 65536) % 256 && (w >> 24) & 0xFF == w / 16777216) by (bit_vector);
    assert(w / 16777216 < 256);
}

/// In a cell that leads down to its slab, each voxel has the colour that the slab gives it.
pub proof fn lemma_cell_reads_its_slab(
    words: Seq<u32>,
    leaves: Seq<u32>,
    leaves_base: int,
    f: TileFormat,
    p: int,
    g: spec_fn(int, int, int) -> u8,
    x: int,
    y: int,
    z: int,
)
    requires
        words[p] & f.uniform_mask == 0,
        words[p] & f.has_l1 != 0,
        words[p] & f.has_l2 != 0,
        words[p] & f.has_l3 != 0,
        words[p] & f.has_brick != 0,
        forall|n: int| 0 <= n < 8 ==> f.leads_on(#[trigger] table_slot(words, p + 1, n)),
        forall|n: int| 0 <= n < 64 ==> f.leads_on(#[trigger] table_slot(words, p + 5, n)),
        forall|n: int| 0 <= n < 512 ==> f.leads_on(#[trigger] table_slot(words, p + 37, n)),
        words[p + 293] > 0,
        forall|a: int, b: int, c: int|
            0 <= a < 16 && 0 <= b < 16 && 0 <= c < 16 ==> #[trigger] g(a, b, c) == slab_content(
                leaves,
                leaves_base + words[p + 293] - 1,
                a + 16 * b + 256 * c,
            ),
        0 <= x < 16,
        0 <= y < 16,
        0 <= z < 16,
    ensures
        node_colour(words, leaves, leaves_base, f, p, x, y, z) == g(x, y, z),
{
    let n1 = slot_number(x / 8, y / 8, z / 8, 2);
    let n2 = slot_number(x / 4, y / 4, z / 4, 4);
    let n3 = slot_number(x / 2, y / 2, z / 2, 8);
    assert(0 <= n1 < 8 && 0 <= n2 < 64 && 0 <= n3 < 512);
    lemma_table_slot(words, p + 1, n1);
    lemma_table_slot(words, p + 5, n2);
    lemma_table_slot(words, p + 37, n3);
    assert(f.leads_on(table_slot(words, p + 1, n1)));
    assert(f.leads_on(table_slot(words, p + 5, n2)));
    assert(f.leads_on(table_slot(words, p + 37, n3)));
    lemma_slab_reads_its_voxels(leaves, leaves_base + words[p + 293] - 1, g, x, y, z);
}

/// A cell of one colour has it at every voxel; in another, the voxel has the colour of the first
/// table that has one at its place. The tables are of 2, 4 and 8 slots along each edge, and a slot
/// speaks of a cube of 8, 4 and 2 voxels: `x` runs fastest, then `y`, then `z`.
pub proof fn lemma_cell_reads_its_tables(
    words: Seq<u32>,
    leaves: Seq<u32>,
    leaves_base: int,
    f: TileFormat,
    p: int,
    x: int,
    y: int,
    z: int,
)
    requires
        f.shifts_fit(),
        0 <= x < 16,
        0 <= y < 16,
        0 <= z < 16,
    ensures
        ({
            let hdr = words[p];
            let s1 = table_slot(words, p + 1, x / 8 + 2 * (y / 8) + 4 * (z / 8));
            let s2 = table_slot(words, p + 5, x / 4 + 4 * (y / 4) + 16 * (z / 4));
            let s3 = table_slot(words, p + 37, x / 2 + 8 * (y / 2) + 64 * (z / 2));
            let colour = node_colour(words, leaves, leaves_base, f, p, x, y, z);
            let tables = hdr & f.uniform_mask == 0;
            let (l1, l2, l3) = (hdr & f.has_l1 != 0, hdr & f.has_l2 != 0, hdr & f.has_l3 != 0);
            &&& !tables ==> colour == hdr & f.uniform_mask
            &&& tables && !l1 ==> colour == 0
            &&& tables && l1 && !f.leads_on(s1) ==> colour == (if f.tag(s1) == f.tag_empty {
                0
            } else {
                (s1 >> f.palette_shift) & 0xFF
            })
            &&& tables && l1 && f.leads_on(s1) && !l2 ==> colour == 0
            &&& tables && l1 && f.leads_on(s1) && l2 && !f.leads_on(s2) ==> colour == (if f.tag(s2)
                == f.tag_empty {
                0
            } else {
                (s2 >> f.palette_shift) & 0xFF
            })
            &&& tables && l1 && f.leads_on(s1) && l2 && f.leads_on(s2) && !l3 ==> colour == 0
            &&& tables && l1 && f.leads_on(s1) && l2 && f.leads_on(s2) && l3 && !f.leads_on(s3)
                ==> colour == (if f.tag(s3) == f.tag_empty {
                0
            } else {
                (s3 >> f.palette_shift) & 0xFF
            })
        }),
{
    let n1 = x / 8 + 2 * (y / 8) + 4 * (z / 8);
    let n2 = x / 4 + 4 * (y / 4) + 16 * (z / 4);
    let n3 = x / 2 + 8 * (y / 2) + 64 * (z / 2);
    assert(n1 == slot_number(x / 8, y / 8, z / 8, 2));
    assert(n2 == slot_number(x / 4, y / 4, z / 4, 4));
    assert(n3 == slot_number(x / 2, y / 2, z / 2, 8));
    lemma_table_slot(words, p + 1, n1);
    lemma_table_slot(words, p + 5, n2);
    lemma_table_slot(words, p + 37, n3);
    let (s1, s2, s3) = (
        table_slot(words, p + 1, n1),
        table_slot(words, p + 5, n2),
        table_slot(words, p + 37, n3),
    );
    let (hdr, m, k) = (words[p], f.uniform_mask, f.palette_shift);
    assert(hdr & m <= m && (s1 >> k) & 0xFF <= 0xFF && (s2 >> k) & 0xFF <= 0xFF && (s3 >> k) & 0xFF
        <= 0xFF) by (bit_vector);
}

/// A place outside the tile reads as the nearest one inside, on each axis for itself.
pub proof fn lemma_into_tile(c: int, t: int)
    requires
        0 <= t < 512,
    ensures
        0 <= into_tile(c) < 512,
        0 <= c < 512 ==> into_tile(c) == c,
        t <= c ==> into_tile(c) >= t,
        t >= c ==> into_tile(c) <= t,
{
}

/// A walk starts in its cell, at the voxel nearest to where it was to start.
pub proof fn lemma_into_fine_cell(c: int, cell: int, t: int)
    requires
        t / 16 == cell,
    ensures
        into_fine_cell(c, cell * 16) / 16 == cell,
        c / 16 == cell ==> into_fine_cell(c, cell * 16) == c,
        t <= c ==> into_fine_cell(c, cell * 16) >= t,
        t >= c ==> into_fine_cell(c, cell * 16) <= t,
{
}

/// The cell of voxel `(x, y, z)` is number `x / 16 + 32 (y / 16) + 1024 (z / 16)` of the tile, in the
/// occupancy bits, lowest bit first, and in the directory. A voxel of an empty cell has no colour.
pub proof fn lemma_object_reads_its_cells(
    pool: MovPoolPacked,
    d: MovDesc,
    f: TileFormat,
    x: int,
    y: int,
    z: int,
)
    requires
        0 <= x < 512,
        0 <= y < 512,
        0 <= z < 512,
    ensures
        ({
            let s = pool.mov_struct@;
            let n = x / 16 + 32 * (y / 16) + 1024 * (z / 16);
            let v = IVec3 { x: x as i32, y: y as i32, z: z as i32 };
            let w = s[d.bitmap_base + n / 32];
            let at = s[d.dir_base + n];
            &&& 0 <= n < 32768
            &&& (w >> ((x / 16) as u32)) & 1 == 0 || at == 0 ==> object_colour(pool, d, f, v) == 0
            &&& (w >> ((x / 16) as u32)) & 1 != 0 && at != 0 ==> object_colour(pool, d, f, v)
                == node_colour(
                s,
                pool.mov_leaves@,
                d.leaves_base as int,
                f,
                d.node_base + at - f.node_stream_base,
                x - 16 * (x / 16),
                y - 16 * (y / 16),
                z - 16 * (z / 16),
            )
        }),
{
    let n = x / 16 + 32 * (y / 16) + 1024 * (z / 16);
    assert(n == cell_number(x / 16, y / 16, z / 16));
    assert(n % 32 == x / 16);
}

/// Word `k` of each part of an object stands `k` words behind the place that its descriptor gives for
/// the part, and a node stands in the pool as far behind the nodes' place as it stood in the object.
pub proof fn lemma_object_words_stand(objs: Seq<MovObject>, f: TileFormat, n: nat, i: int, k: int)
    requires
        0 <= i < n <= objs.len(),
        objs[i].fits(f),
        packed_struct(objs, f, n).len() <= u32::MAX,
        packed_palette(objs, f, n).len() <= u32::MAX,
        packed_leaves(objs, n).len() <= u32::MAX,
        0 <= k,
    ensures
        ({
            let d = packed_desc(objs, f, i);
            let o = objs[i];
            let s = packed_struct(objs, f, n);
            let p = packed_palette(objs, f, n);
            let l = packed_leaves(objs, n);
            &&& k < 1024 && f.bitmap_base + k < o.b_struct.len() ==> s[d.bitmap_base + k]
                == o.b_struct@[f.bitmap_base + k]
            &&& k < 32768 && f.dir_base + k < o.b_struct.len() ==> s[d.dir_base + k]
                == o.b_struct@[f.dir_base + k]
            &&& k < o.node_words && f.node_stream_base + k < o.b_struct.len() ==> s[d.node_base + k]
                == o.b_struct@[f.node_stream_base + k]
            &&& k < f.palette_words && k < o.b_palette.len() ==> p[d.palette_base + k]
                == o.b_palette@[k]
            &&& whole_slabs(objs, i) && k < 1024 * o.brick_slabs && k < o.b_leaves.len() ==> l[1024
                * d.leaves_base + k] == o.b_leaves@[k]
        }),
{
    lemma_parts_stand(objs, f, n, i);
    let d = packed_desc(objs, f, i);
    let o = objs[i];
    let s = packed_struct(objs, f, n);
    let p = packed_palette(objs, f, n);
    let l = packed_leaves(objs, n);
    if k < o.bitmap(f).len() {
        assert(s.subrange(d.bitmap_base as int, d.dir_base as int)[k] == o.bitmap(f)[k]);
    }
    if k < o.dirs(f).len() {
        assert(s.subrange(d.dir_base as int, d.node_base as int)[k] == o.dirs(f)[k]);
    }
    if k < o.nodes(f).len() {
        assert(s.subrange(d.node_base as int, d.node_base + o.nodes(f).len())[k] == o.nodes(f)[k]);
    }
    if k < o.palette(f).len() {
        assert(p.subrange(d.palette_base as int, d.palette_base + o.palette(f).len())[k]
            == o.palette(f)[k]);
    }
    if whole_slabs(objs, i) && k < o.leaves().len() {
        let at = d.leaves_base * BRICK_SLAB_WORDS;
        assert(l.subrange(at, at + o.leaves().len())[k] == o.leaves()[k]);
    }
}

/// A walk through a cell starts in it, on each axis, and where it was to start if that is in the cell.
pub proof fn lemma_scan_start(p: IVec3, cc: Seq<u32>)
    requires
        cc.len() == 3,
        cc[0] < 32 && cc[1] < 32 && cc[2] < 32,
    ensures
        scan_start(p, cc).x as int / 16 == cc[0],
        scan_start(p, cc).y as int / 16 == cc[1],
        scan_start(p, cc).z as int / 16 == cc[2],
        p.x as int / 16 == cc[0] ==> scan_start(p, cc).x == p.x,
        p.y as int / 16 == cc[1] ==> scan_start(p, cc).y == p.y,
        p.z as int / 16 == cc[2] ==> scan_start(p, cc).z == p.z,
{
}

} // verus!
