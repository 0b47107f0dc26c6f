//! The brick map, from voxels to words and back.

use gate_render::bits::read_mask;
use gate_render::brickmap::builder::{chunk_index_pos, BrickMapBuilder, ChunkUpdate};
use gate_render::brickmap::dump::{
    compare_files, dump_voxel_buffers, read_back_file, short_buffer, DumpVerdict, DUMP_MAGIC,
};
use gate_render::brickmap::extract::{
    extract, BuilderMirror, EditBox, ExtractMode, MainPending, PendingEdit,
};
use gate_render::brickmap::grid::{chunk_has_content, TreeDirty, VolumeGrid};
use gate_render::brickmap::lookup::NodeDesc;
use gate_render::brickmap::mov::{
    obj_cell_occupied, pack_mov_pool, step_cell, FineScan, MovObject, MovPoolPacked, TileFormat,
    CELL_STEPS, OBJ_WORLD,
};
use gate_render::brickmap::raytrace::{
    cell_index, face_normal_from_index, first_face, occupied_window, reach_lut, ChunkWalk, Look,
    March, Met,
};
use gate_render::brickmap::tree::{pack_palette_word, ChunkTree, TreeNode};
use gate_render::brickmap::upload::{plan_upload, DirtyBox};
use gate_render::brickmap::view::BrickMapView;
use gate_render::brickmap::volumes::VolumesBuilder;
use gate_render::brickmap::wire::{CHUNK_SIZE, PALETTE_WORDS, TREE_BASE};
use gate_render::math::{ChunkCoord, IVec3};

const LEAF_INLINE_WORDS: usize = 32;
const NODE_FIXED_WORDS: usize = 3;
const ROOT_WIRE_WORDS: usize = 67;

fn v3(x: i32, y: i32, z: i32) -> IVec3 {
    IVec3::new(x, y, z)
}

fn cc(x: i32, y: i32, z: i32) -> ChunkCoord {
    ChunkCoord(v3(x, y, z))
}

fn node(level: u8, palette: u16) -> TreeNode {
    TreeNode { level, mask: 0, palette, rep: 0, children: Vec::new(), inline: Vec::new() }
}

/// A chunk's changed nodes since the last upload.
struct Changes {
    reset: bool,
    nodes: Vec<(u8, u32)>,
}

/// A volume with its edits.
struct World {
    grid: VolumeGrid,
    changes: Vec<(ChunkCoord, Changes)>,
}

fn rank(mask: u64, cell: u32) -> usize {
    (mask & ((1u64 << cell) - 1)).count_ones() as usize
}

fn inline_get(n: &TreeNode, cell: u32) -> u16 {
    ((n.inline[(cell / 2) as usize] >> ((cell % 2) * 16)) & 0xFFFF) as u16
}

fn inline_set(n: &mut TreeNode, cell: u32, p: u16) {
    let w = &mut n.inline[(cell / 2) as usize];
    let shift = (cell % 2) * 16;
    *w = (*w & !(0xFFFFu32 << shift)) | ((p as u32) << shift);
}

/// Sets one voxel. Nodes get fresh ids; every node on the way is reported.
fn set_in_tree(tree: &mut ChunkTree, x: u32, y: u32, z: u32, p: u16, changes: &mut Changes) {
    if tree.get_voxel(x, y, z).unwrap_or(0) == p {
        return;
    }
    let mut path: Vec<(u32, u32)> = Vec::new();
    let mut id = 0u32;
    let mut step = 64u32;
    let (mut lx, mut ly, mut lz) = (x, y, z);
    for level in 0..4u8 {
        let cell = lz / step * 16 + ly / step * 4 + lx / step;
        path.push((id, cell));
        let mut n = tree.nodes[id as usize].clone().expect("live node");
        if level == 3 {
            if n.mask == 0 {
                let both = (n.palette as u32) | ((n.palette as u32) << 16);
                n.inline = vec![both; LEAF_INLINE_WORDS];
            }
            inline_set(&mut n, cell, p);
            if p == n.palette {
                n.mask &= !(1u64 << cell);
            } else {
                n.mask |= 1u64 << cell;
            }
            if n.mask == u64::MAX && (0..64).all(|c| inline_get(&n, c) == p) {
                n.mask = 0;
                n.palette = p;
            }
            if n.mask == 0 {
                n.inline = Vec::new();
            }
            tree.nodes[id as usize] = Some(n);
            break;
        }
        let next;
        if n.mask & (1u64 << cell) == 0 {
            next = tree.nodes.len() as u32;
            tree.nodes.push(Some(node(level + 1, n.palette)));
            n.children.insert(rank(n.mask, cell), next);
            n.mask |= 1u64 << cell;
            tree.nodes[id as usize] = Some(n);
        } else {
            next = n.children[rank(n.mask, cell)];
        }
        id = next;
        lx %= step;
        ly %= step;
        lz %= step;
        step /= 4;
    }
    for (level, (id, _)) in path.iter().enumerate() {
        let entry = (level as u8, *id);
        if !changes.nodes.contains(&entry) {
            changes.nodes.push(entry);
        }
    }
    // what has become of one colour goes back into its parent
    for level in (0..3usize).rev() {
        let (parent, cell) = path[level];
        let mut n = tree.nodes[parent as usize].clone().expect("live node");
        let at = rank(n.mask, cell);
        let child = n.children[at];
        let c = tree.nodes[child as usize].clone().expect("live node");
        if c.mask == 0 && c.palette == n.palette {
            n.children.remove(at);
            n.mask &= !(1u64 << cell);
            tree.nodes[child as usize] = None;
        } else if n.mask == u64::MAX {
            let all = n.children.iter().all(|k| {
                let k = tree.nodes[*k as usize].as_ref().expect("live node");
                k.mask == 0 && k.palette == c.palette
            });
            if all {
                for k in &n.children {
                    tree.nodes[*k as usize] = None;
                }
                n.children = Vec::new();
                n.mask = 0;
                n.palette = c.palette;
            }
        }
        tree.nodes[parent as usize] = Some(n);
    }
}

impl World {
    fn new() -> Self {
        World { grid: VolumeGrid::new(), changes: Vec::new() }
    }

    fn set(&mut self, v: IVec3, p: u16) {
        let c = cc(
            v.x.div_euclid(CHUNK_SIZE),
            v.y.div_euclid(CHUNK_SIZE),
            v.z.div_euclid(CHUNK_SIZE),
        );
        let i = match self.grid.chunks.find(c) {
            Some(i) => i,
            None => {
                self.grid.chunks.insert(c, ChunkTree { nodes: vec![Some(node(0, 0))] });
                self.changes.push((c, Changes { reset: true, nodes: Vec::new() }));
                self.grid.chunks.find(c).expect("just put in")
            }
        };
        let at = self.changes.iter().position(|k| k.0 == c).expect("known chunk");
        set_in_tree(
            self.grid.chunks.value_mut(i),
            v.x.rem_euclid(CHUNK_SIZE) as u32,
            v.y.rem_euclid(CHUNK_SIZE) as u32,
            v.z.rem_euclid(CHUNK_SIZE) as u32,
            p,
            &mut self.changes[at].1,
        );
    }

    fn fill_box(&mut self, lo: IVec3, size: IVec3, p: u16) {
        for x in 0..size.x {
            for y in 0..size.y {
                for z in 0..size.z {
                    self.set(v3(lo.x + x, lo.y + y, lo.z + z), p);
                }
            }
        }
    }

    fn fill_sphere(&mut self, c: IVec3, r: i32, p: u16) {
        for x in -r..=r {
            for y in -r..=r {
                for z in -r..=r {
                    if x * x + y * y + z * z <= r * r {
                        self.set(v3(c.x + x, c.y + y, c.z + z), p);
                    }
                }
            }
        }
    }

    fn get(&self, v: IVec3) -> Option<u16> {
        let c = cc(
            v.x.div_euclid(CHUNK_SIZE),
            v.y.div_euclid(CHUNK_SIZE),
            v.z.div_euclid(CHUNK_SIZE),
        );
        self.grid.chunk(c)?.get_voxel(
            v.x.rem_euclid(CHUNK_SIZE) as u32,
            v.y.rem_euclid(CHUNK_SIZE) as u32,
            v.z.rem_euclid(CHUNK_SIZE) as u32,
        )
    }

    fn take_dirty_of(&mut self, c: ChunkCoord) -> TreeDirty {
        match self.changes.iter_mut().find(|k| k.0 == c) {
            Some((_, ch)) => {
                let mut nodes = std::mem::take(&mut ch.nodes);
                nodes.sort_by(|a, b| b.0.cmp(&a.0));
                let reset = std::mem::replace(&mut ch.reset, false);
                TreeDirty { reset, nodes }
            }
            None => TreeDirty { reset: false, nodes: Vec::new() },
        }
    }

    fn coords(&self) -> Vec<ChunkCoord> {
        (0..self.grid.chunks.len()).map(|i| self.grid.chunks.entry(i).0).collect()
    }

    fn build_and_drain(&mut self) -> BrickMapBuilder {
        let b = BrickMapBuilder::build_full(&mut self.grid);
        for c in self.coords() {
            let _ = self.take_dirty_of(c);
        }
        b
    }
}

fn two_chunk_grid() -> (World, ChunkCoord, ChunkCoord) {
    let mut w = World::new();
    w.fill_box(v3(0, 0, 0), v3(16, 16, 16), 1);
    w.fill_box(v3(CHUNK_SIZE, 0, 0), v3(8, 8, 8), 2);
    (w, cc(0, 0, 0), cc(1, 0, 0))
}

fn assert_wire_node(
    buf: &Vec<u32>,
    base: usize,
    off: usize,
    tree: &ChunkTree,
    id: u32,
    level: u8,
) -> usize {
    let view = tree.node_view(id).expect("live node");
    let at = base + off;
    assert_eq!(read_mask(buf, at), view.mask, "mask of node {id} (level {level})");
    assert_eq!(buf[at + 2], pack_palette_word(view.palette, view.rep), "palette of node {id}");
    if view.mask == 0 {
        return 1;
    }
    if level == 3 {
        assert_eq!(
            &buf[at + NODE_FIXED_WORDS..at + NODE_FIXED_WORDS + LEAF_INLINE_WORDS],
            &view.inline[..],
            "voxels of node {id}"
        );
        return 1;
    }
    let mut n = 1;
    for (slot, &child) in view.children.iter().enumerate() {
        let child_off = buf[at + NODE_FIXED_WORDS + slot] as usize;
        n += assert_wire_node(buf, base, child_off, tree, child, level + 1);
    }
    n
}

fn assert_wire_matches_grid(b: &BrickMapBuilder, w: &World, what: &str) {
    let mut nodes = 0usize;
    for c in w.coords() {
        if !chunk_has_content(&w.grid, c) {
            continue;
        }
        let tree = w.grid.chunk(c).expect("has content");
        let base = b.chunk_base(c).unwrap_or_else(|| panic!("{what}: {c:?} has no block"));
        let words = &b.buffers().b_struct;
        assert_eq!(
            words[b.window_word(c).expect("in the window")] as usize,
            base + 1,
            "{what}: index entry of {c:?}"
        );
        nodes += assert_wire_node(words, base, 0, tree, 0, 0);
    }
    assert!(nodes > 0, "{what}: nothing to compare");
}

#[test]
fn set_window_translates_index_entries() {
    let mut w = World::new();
    let (c, c2) = (cc(4, 0, 0), cc(5, 0, 0));
    for x in 0..8 {
        for y in 0..8 {
            w.set(v3(4 * CHUNK_SIZE + x, y, 0), 1);
            w.set(v3(5 * CHUNK_SIZE + x, y, 0), 2);
        }
    }
    let mut b = w.build_and_drain();
    let (o0, d0) = b.window();
    let pos0 = b.window_word(c).unwrap();
    let (entry0, entry1) = (b.buffers().b_struct[pos0], b.buffers().b_struct[pos0 + 1]);
    assert!(entry0 != 0 && entry1 != 0);
    let base = entry0 as usize - 1;
    let block = b.buffers().b_struct[base..base + 8].to_vec();

    let o1 = v3(o0.x - 1, o0.y, o0.z);
    b.set_window(o1, d0);
    assert_eq!(b.window(), (o1, d0));
    let pos1 = b.window_word(c).unwrap();
    assert_eq!(pos1, pos0 + 1);
    assert_eq!(b.buffers().b_struct[pos1], entry0);
    assert_eq!(b.buffers().b_struct[pos1 + 1], entry1);
    assert_eq!(b.buffers().b_struct[pos0], 0);
    assert_eq!(&b.buffers().b_struct[base..base + 8], &block[..]);

    let o2 = v3(o1.x + 3, o1.y, o1.z);
    assert!(chunk_index_pos(o2, d0, c.0).is_none());
    b.set_window(o2, d0);
    assert_eq!(b.buffers().b_struct[pos1], 0);
    assert!(w.grid.chunk(c).is_some());
    assert_ne!(b.window_word(c2).unwrap(), 0);

    let words_before = b.buffers().b_struct.len();
    b.compact();
    assert!(b.buffers().b_struct.len() < words_before);
}

#[test]
fn gpu_blob_carries_per_voxel_palette_in_a_brick() {
    const N_FIXED: usize = 3;
    let mut w = World::new();
    for i in 0..64i32 {
        w.set(v3(i % 4, (i / 4) % 4, i / 16), (i + 1) as u16);
    }
    let b = w.build_and_drain();
    let words = &b.buffers().b_struct;
    let ip = b.window_word(cc(0, 0, 0)).unwrap();
    let base = words[ip] as usize - 1;
    let mut addr = base;
    for lv in 0..3 {
        assert_ne!(words[addr] | words[addr + 1], 0, "level {lv} is split");
        addr = base + words[addr + N_FIXED] as usize;
    }
    let mask = (words[addr] as u64) | ((words[addr + 1] as u64) << 32);
    assert_eq!(mask.count_ones(), 64);
    for i in 0..64usize {
        let w = words[addr + N_FIXED + (i >> 1)];
        assert_eq!((w >> ((i & 1) * 16)) & 0xFFFF, (i + 1) as u32, "cell {i}");
    }
}

#[test]
fn repeated_edits_reuse_freed_space_in_block() {
    let (mut w, c0, _) = two_chunk_grid();
    let mut b = w.build_and_drain();
    let hw0 = b.buffers().b_struct.len();
    let p = v3(3, 3, 3);
    let mut hw_seq = Vec::new();
    for i in 0..20 {
        w.set(p, if i % 2 == 0 { 2 } else { 1 });
        let dirty = w.take_dirty_of(c0);
        assert_eq!(b.update_chunk(&mut w.grid, c0, &dirty, true), ChunkUpdate::Rebuilt);
        assert_wire_matches_grid(&b, &w, &format!("edit {i}"));
        hw_seq.push(b.buffers().b_struct.len());
    }
    let tail = &hw_seq[5..];
    assert!(tail.iter().all(|&h| h == tail[0]), "{hw_seq:?}");
    assert!(hw_seq[19] <= hw0 + ROOT_WIRE_WORDS, "{hw0} -> {}", hw_seq[19]);
}

#[test]
fn far_reserve_keeps_tree_region_length_stable() {
    let mut w = World::new();
    let coords: Vec<ChunkCoord> = (0..12).map(|i| cc(i % 4, i / 4, 0)).collect();
    for c in &coords {
        w.fill_box(v3(c.0.x * CHUNK_SIZE, c.0.y * CHUNK_SIZE, 0), v3(8, 8, 8), 1);
    }
    let reserve = 1 << 20;
    let mut b = BrickMapBuilder::new_unbuilt_reserved(&mut w.grid, reserve);
    let len0 = b.buffers().b_struct.len();
    assert_eq!(len0, TREE_BASE + reserve);
    for c in &coords {
        let dirty = w.take_dirty_of(*c);
        b.update_chunk(&mut w.grid, *c, &dirty, true);
        assert_eq!(b.buffers().b_struct.len(), len0);
    }
    b.compact();
    assert_eq!(b.buffers().b_struct.len(), len0);
    assert_eq!(b.window(), (b.origin(), b.dims()));
}

fn checkered() -> (World, ChunkCoord, ChunkCoord) {
    let mut w = World::new();
    for x in 0..16 {
        for y in 0..16 {
            for z in 0..16 {
                if (x + y + z) % 2 == 0 {
                    w.set(v3(x, y, z), 1);
                }
            }
        }
    }
    w.fill_box(v3(CHUNK_SIZE, 0, 0), v3(8, 8, 8), 2);
    (w, cc(0, 0, 0), cc(1, 0, 0))
}

fn erase_checkered(w: &mut World) {
    for x in 0..16 {
        for y in 0..16 {
            for z in 0..16 {
                if (x + y + z) % 2 == 0 {
                    w.set(v3(x, y, z), 0);
                }
            }
        }
    }
}

#[test]
fn compaction_shrinks_tree_region() {
    let (mut w, c0, c1) = checkered();
    let mut b = w.build_and_drain();
    let hw0 = b.buffers().b_struct.len();
    let c1_base_before = b.chunk_base(c1).expect("in the window");
    let len_of = |w: &World, c: ChunkCoord| w.grid.chunk(c).unwrap().serialize_with_layout().0.len();
    assert!(len_of(&w, c0) > len_of(&w, c1));
    erase_checkered(&mut w);
    let dirty = w.take_dirty_of(c0);
    assert_eq!(b.update_chunk(&mut w.grid, c0, &dirty, true), ChunkUpdate::Released);
    assert_eq!(b.chunk_base(c0), None);
    assert!(b.buffers().b_struct.len() < hw0);
    assert_eq!(b.chunk_base(c1), Some(TREE_BASE));
    assert_ne!(b.chunk_base(c1), Some(c1_base_before));
    assert_wire_matches_grid(&b, &w, "packed");
    assert_eq!(b.buffers().globals.node_free_words, 0);
}

#[test]
fn compaction_deferred_while_editing() {
    let (mut w, c0, c1) = checkered();
    let mut b = w.build_and_drain();
    let hw0 = b.buffers().b_struct.len();
    erase_checkered(&mut w);
    let dirty = w.take_dirty_of(c0);
    assert_eq!(b.update_chunk(&mut w.grid, c0, &dirty, false), ChunkUpdate::Released);
    assert_eq!(b.buffers().b_struct.len(), hw0);
    assert_wire_matches_grid(&b, &w, "not packed yet");
    let dirty = w.take_dirty_of(c1);
    assert_eq!(b.update_chunk(&mut w.grid, c1, &dirty, true), ChunkUpdate::Rebuilt);
    assert!(b.buffers().b_struct.len() < hw0);
    assert_eq!(b.chunk_base(c1), Some(TREE_BASE));
    assert_wire_matches_grid(&b, &w, "packed");
    assert_eq!(b.buffers().globals.node_free_words, 0);
}

#[test]
fn incremental_layout_survives_random_edits() {
    let (mut w, c0, c1) = two_chunk_grid();
    let mut b = w.build_and_drain();
    let mut seed = 0x1234_5678u32;
    let mut rnd = move || {
        seed = seed.wrapping_mul(1_664_525).wrapping_add(1_013_904_223);
        (seed >> 8) as usize
    };
    for step in 0..200 {
        let coord = if rnd() % 2 == 0 { c0 } else { c1 };
        let off = v3((rnd() % 24) as i32, (rnd() % 24) as i32, (rnd() % 24) as i32);
        let v = if rnd() % 3 == 0 { 0 } else { (rnd() % 3) as u16 + 1 };
        w.set(v3(coord.0.x * CHUNK_SIZE + off.x, off.y, off.z), v);
        let dirty = w.take_dirty_of(coord);
        b.update_chunk(&mut w.grid, coord, &dirty, true);
        assert_wire_matches_grid(&b, &w, &format!("step {step}"));
    }
}

#[test]
fn single_voxel_edit_uploads_only_the_path() {
    let (mut w, c0, _) = two_chunk_grid();
    let mut b = w.build_and_drain();
    let _ = b.take_dirty_ranges();

    w.set(v3(5, 5, 5), 3);
    let dirty = w.take_dirty_of(c0);
    assert!(!dirty.reset);
    assert!(dirty.nodes.len() <= 8, "{:?}", dirty.nodes);
    assert_eq!(b.update_chunk(&mut w.grid, c0, &dirty, true), ChunkUpdate::Rebuilt);

    let dr = b.take_dirty_ranges();
    let bytes: usize = dr.struct_ranges.iter().map(|(lo, hi)| hi - lo).sum();
    assert!(bytes <= 512, "{bytes}: {:?}", dr.struct_ranges);
    assert_wire_matches_grid(&b, &w, "after the edit");
}

#[test]
fn chunk_becomes_empty_then_rebuilds() {
    let (mut w, _, c1) = two_chunk_grid();
    let mut b = w.build_and_drain();
    w.fill_box(v3(CHUNK_SIZE, 0, 0), v3(8, 8, 8), 0);
    let dirty = w.take_dirty_of(c1);
    assert_eq!(b.update_chunk(&mut w.grid, c1, &dirty, false), ChunkUpdate::Released);
    assert_eq!(b.chunk_base(c1), None);
    assert!(b.buffers().globals.node_free_words > 0);

    w.fill_box(v3(CHUNK_SIZE, 0, 0), v3(8, 8, 8), 2);
    let dirty = w.take_dirty_of(c1);
    assert_eq!(b.update_chunk(&mut w.grid, c1, &dirty, true), ChunkUpdate::Rebuilt);
    assert_wire_matches_grid(&b, &w, "built again");
}

#[test]
fn evict_then_wake_is_lossless() {
    let (mut w, _, c1) = two_chunk_grid();
    let mut b = w.build_and_drain();
    let words_all = b.resident_words();
    assert!(b.is_resident(c1));

    assert!(b.evict(c1));
    assert!(!b.is_resident(c1));
    assert_eq!(b.chunk_base(c1), None);
    assert!(b.resident_words() < words_all);
    assert!(!b.evict(c1));

    assert!(b.ensure_resident(&w.grid, c1));
    assert!(b.is_resident(c1));
    assert_eq!(b.resident_words(), words_all);
    assert!(!b.ensure_resident(&w.grid, c1));
    assert_wire_matches_grid(&b, &w, "woken");
}

#[test]
fn empty_chunk_is_never_resident() {
    let (mut w, c0, c1) = two_chunk_grid();
    let mut b = w.build_and_drain();
    assert!(b.is_resident(c0) && b.is_resident(c1));
    let empty = cc(3, 0, 0);
    assert!(!b.is_resident(empty));
    assert!(!b.ensure_resident(&w.grid, empty));
}

// ---- reading words back ----

#[test]
fn view_reads_every_voxel_back() {
    let (mut w, _, _) = two_chunk_grid();
    w.set(v3(-1, -1, -1), 9);
    let b = w.build_and_drain();
    let view = BrickMapView::new(b.buffers());
    for x in -2..20 {
        for y in -2..20 {
            for z in -2..20 {
                let v = v3(x, y, z);
                assert_eq!(view.get_voxel(v), w.get(v), "{v:?}");
            }
        }
    }
    assert!(view.cell_occupied(v3(0, 0, 0)));
    assert!(view.cell_occupied(v3(-1, -1, -1)));
    assert!(!view.cell_occupied(v3(5, 5, 5)));
    assert_eq!(view.get_voxel(v3(100000, 0, 0)), None);
}

#[test]
fn window_of_a_volume_has_a_margin() {
    let (mut w, _, _) = two_chunk_grid();
    let b = w.build_and_drain();
    assert_eq!(b.window(), (v3(-1, -1, -1), v3(4, 3, 3)));
    let empty = BrickMapBuilder::build_full(&mut VolumeGrid::new());
    assert_eq!(empty.window(), (v3(0, 0, 0), v3(0, 0, 0)));
    assert_eq!(empty.buffers().b_struct.len(), TREE_BASE);
}

#[test]
fn chunks_beyond_the_window_are_rejected() {
    let mut w = World::new();
    w.set(v3(0, 0, 0), 1);
    w.set(v3(70 * CHUNK_SIZE, 0, 0), 1);
    let b = w.build_and_drain();
    assert_eq!(b.dims(), v3(64, 3, 3));
    assert_eq!(b.buffers().globals.rejected_tiles, 1);
    assert!(!b.is_resident(cc(70, 0, 0)));
}

#[test]
fn update_outside_the_window_does_nothing() {
    let (mut w, _, _) = two_chunk_grid();
    let mut b = w.build_and_drain();
    w.set(v3(50 * CHUNK_SIZE, 0, 0), 1);
    let c = cc(50, 0, 0);
    let dirty = w.take_dirty_of(c);
    let words = b.buffers().b_struct.clone();
    assert_eq!(b.update_chunk(&mut w.grid, c, &dirty, true), ChunkUpdate::OutsideWindow);
    assert_eq!(b.buffers().b_struct, words);
    assert_eq!(
        b.update_chunk(&mut w.grid, cc(0, 1, 0), &TreeDirty { reset: false, nodes: vec![] }, false),
        ChunkUpdate::Unchanged
    );
}

#[test]
fn palette_edits_are_marked_entry_by_entry() {
    let (mut w, _, _) = two_chunk_grid();
    let mut b = w.build_and_drain();
    let e = gate_render::brickmap::wire::PaletteEntry {
        color: [1, 2, 3],
        roughness: 4,
        ..Default::default()
    };
    w.grid.palette.set(7, e);
    w.grid.palette.set(9, e);
    b.write_palette(&mut w.grid.palette);
    assert_eq!(b.buffers().b_palette[14], 0x04030201);
    assert_eq!(b.buffers().b_palette[18], 0x04030201);
    let dr = b.take_dirty_ranges();
    assert_eq!(dr.palette_range, Some((7, 9)));
    assert!(!b.has_dirty());
    b.write_palette(&mut w.grid.palette);
    assert!(!b.has_dirty());
}

// ---- several volumes ----

/// A copy of the buffers as the card has them.
struct Card {
    words: Vec<u8>,
    palette: Vec<u8>,
}

impl Card {
    fn write(&mut self, s: &gate_render::brickmap::volumes::VolumesSnapshot) {
        if s.full {
            self.words = s.b_struct.iter().flat_map(|w| w.to_le_bytes()).collect();
            self.palette = s.b_palette.iter().flat_map(|w| w.to_le_bytes()).collect();
            return;
        }
        self.words.resize(s.struct_total_bytes, 0);
        self.palette.resize(s.palette_total_bytes, 0);
        for (off, bytes) in &s.struct_blobs {
            self.words[*off..*off + bytes.len()].copy_from_slice(bytes);
        }
        for (off, bytes) in &s.palette_blobs {
            self.palette[*off..*off + bytes.len()].copy_from_slice(bytes);
        }
    }
}

fn le_words(bytes: &[u8]) -> Vec<u32> {
    bytes.chunks_exact(4).map(|b| u32::from_le_bytes([b[0], b[1], b[2], b[3]])).collect()
}

#[test]
fn snapshots_are_full_first_and_then_hold_changes_only() {
    let (mut w, c0, _) = two_chunk_grid();
    let mut object = World::new();
    object.fill_box(v3(0, 0, 0), v3(4, 4, 4), 5);
    let mut volumes = vec![
        std::mem::replace(&mut w.grid, VolumeGrid::new()),
        std::mem::replace(&mut object.grid, VolumeGrid::new()),
    ];
    let mut b = VolumesBuilder::build_full(&mut volumes);
    let mut card = Card { words: vec![], palette: vec![] };
    let s = b.snapshot();
    assert!(s.full);
    assert_eq!(s.mode_tag(), "full");
    // the object comes first, the main world last
    assert_eq!(s.grid_descs[1].tree_base, 0);
    assert_eq!(s.grid_descs[0].tree_base as usize, b.volume_buffers()[1].b_struct.len());
    assert_eq!(s.grid_descs[1].palette_base, 0);
    assert_eq!(s.grid_descs[0].palette_base as usize, PALETTE_WORDS);
    assert_eq!(s.struct_total_bytes, 4 * s.b_struct.len());
    card.write(&s);

    // one edit of the main world
    w.grid = std::mem::replace(&mut volumes[0], VolumeGrid::new());
    let _ = w.take_dirty_of(c0);
    w.set(v3(2, 2, 2), 7);
    let dirty = w.take_dirty_of(c0);
    volumes[0] = std::mem::replace(&mut w.grid, VolumeGrid::new());
    assert_eq!(b.update_chunk(&mut volumes, 0, c0, &dirty, false), ChunkUpdate::Rebuilt);
    assert!(b.has_dirty());
    let s = b.snapshot();
    assert!(!s.full);
    assert_eq!(s.mode_tag(), "incremental");
    assert!(!s.struct_blobs.is_empty());
    assert!(s.b_struct.is_empty());
    card.write(&s);

    // what the card has reads as the world does
    let words = le_words(&card.words);
    let base = s.grid_descs[0].tree_base as usize;
    let d = s.grid_descs[0];
    let part = words[base..].to_vec();
    let view = BrickMapView::from_parts(
        &part,
        v3(d.index_origin_x, d.index_origin_y, d.index_origin_z),
        v3(d.index_dims_x as i32, d.index_dims_y as i32, d.index_dims_z as i32),
    );
    assert_eq!(view.get_voxel(v3(2, 2, 2)), Some(7));
    assert_eq!(view.get_voxel(v3(3, 3, 3)), Some(1));

    // nothing more to say
    let s = b.snapshot();
    assert!(!s.full && s.struct_blobs.is_empty() && s.palette_blobs.is_empty());

    b.force_full();
    assert!(b.snapshot().full);
}

#[test]
fn a_new_volume_makes_the_snapshot_full() {
    let (w, _, _) = two_chunk_grid();
    let mut volumes = vec![w.grid];
    let mut b = VolumesBuilder::build_full(&mut volumes);
    assert!(b.snapshot().full);
    assert!(!b.snapshot().full);
    let mut far = VolumeGrid::new();
    far.far = true;
    volumes.push(far);
    b.sync(&mut volumes);
    assert_eq!(b.len(), 2);
    let s = b.snapshot();
    assert!(s.full);
    assert_eq!(s.grid_descs[1].grid_flags, 1);
    assert_eq!(s.grid_descs[0].grid_flags, 0);
}

// ---- a frame's extraction ----

fn no_pending() -> MainPending {
    MainPending { force_full: false, data_chunks: vec![], comp_chunks: vec![], data_aabbs: vec![] }
}

fn mirror() -> BuilderMirror {
    BuilderMirror {
        builder: None,
        pending_full: false,
        pending_data_chunks: vec![],
        pending_data_aabbs: vec![],
        pending_comp_chunks: vec![],
        palette_versions: vec![],
    }
}

const MODE: ExtractMode =
    ExtractMode { incremental: true, interior_only_edit: false, quiet: false };

#[test]
fn extraction_is_full_then_idle_then_incremental() {
    let (mut w, c0, c1) = two_chunk_grid();
    let _ = (w.take_dirty_of(c0), w.take_dirty_of(c1));
    let mut volumes = vec![std::mem::replace(&mut w.grid, VolumeGrid::new())];
    let mut m = mirror();
    let first = extract(&mut m, &mut volumes, no_pending(), MODE);
    assert!(first.dirty.full && first.dirty.palette_changed);
    assert!(first.dirty.boxes.is_empty());
    assert!(first.snapshot.expect("a first upload").full);
    assert_eq!(m.palette_versions, vec![0]);

    let idle = extract(&mut m, &mut volumes, no_pending(), MODE);
    assert!(!idle.dirty.full && !idle.dirty.palette_changed && idle.snapshot.is_none());

    w.grid = std::mem::replace(&mut volumes[0], VolumeGrid::new());
    w.set(v3(5, 5, 5), 3);
    let dirty = w.take_dirty_of(c0);
    volumes[0] = std::mem::replace(&mut w.grid, VolumeGrid::new());
    let mut p = no_pending();
    p.data_chunks.push(PendingEdit { volume: 0, chunk: c0, dirty });
    p.data_aabbs.push(EditBox { volume: 0, chunk: c0, lo: v3(5, 5, 5), hi: v3(6, 6, 6) });
    p.comp_chunks.push((0, c1));
    p.comp_chunks.push((3, c1));
    let step = extract(&mut m, &mut volumes, p, MODE);
    assert!(!step.dirty.full);
    assert_eq!(step.dirty.boxes.len(), 1);
    assert_eq!(step.dirty.boxes[0].volume, 0);
    assert_eq!(
        step.dirty.boxes[0].area,
        DirtyBox { lo: v3(5, 0, 0), hi: v3(512, 256, 256) }
    );
    let s = step.snapshot.expect("changes");
    assert!(!s.full && !s.struct_blobs.is_empty());
    let b = m.builder.as_ref().unwrap();
    let view = BrickMapView::new(b.volume_buffers()[0]);
    assert_eq!(view.get_voxel(v3(5, 5, 5)), Some(3));
    assert!(m.pending_data_chunks.is_empty());
}

#[test]
fn interior_edits_report_no_boxes() {
    let (w, c0, _) = two_chunk_grid();
    let mut volumes = vec![w.grid];
    let mut m = mirror();
    let _ = extract(&mut m, &mut volumes, no_pending(), MODE);
    let mut p = no_pending();
    p.comp_chunks.push((0, c0));
    let r = extract(&mut m, &mut volumes, p, ExtractMode { interior_only_edit: true, ..MODE });
    assert!(r.dirty.boxes.is_empty() && r.snapshot.is_some());
    let mut p = no_pending();
    p.force_full = true;
    let r = extract(&mut m, &mut volumes, p, MODE);
    assert!(r.dirty.full && r.snapshot.unwrap().full);
    let r = extract(&mut m, &mut volumes, no_pending(), ExtractMode { incremental: false, ..MODE });
    assert!(r.dirty.full);
}

#[test]
fn upload_plans_follow_the_snapshot() {
    let (w, _, _) = two_chunk_grid();
    let mut volumes = vec![w.grid];
    let mut b = VolumesBuilder::build_full(&mut volumes);
    let s = b.snapshot();
    let plan = plan_upload(&s, 3, 0);
    assert!(plan.is_full && plan.write_lut);
    assert_eq!(plan.comp_bytes, 3 * 2048 * 4);
    assert_eq!(plan.struct_tx_bytes, 4 * s.b_struct.len());
    assert_eq!(plan.palette_tx_bytes, 4 * PALETTE_WORDS);
    assert_eq!(plan.grid_descs_tx_bytes, 144);
    assert_eq!(plan.chunks_show, 2);
    assert_eq!(plan.globals.grid_count, 1);
    assert_eq!(plan.globals.tile_count, 2);
    assert_eq!(plan.window_origin, v3(-1, -1, -1));
    let s = b.snapshot();
    let plan = plan_upload(&s, 0, 4096);
    assert!(!plan.is_full && !plan.write_lut);
    assert_eq!(plan.comp_bytes, 4);
    assert_eq!((plan.struct_tx_bytes, plan.grid_descs_tx_bytes, plan.chunks_show), (0, 0, 0));
}

// ---- the dump ----

#[test]
fn dump_holds_the_header_the_table_and_the_words() {
    let (w, _, _) = two_chunk_grid();
    let mut object = World::new();
    object.fill_box(v3(0, 0, 0), v3(4, 4, 4), 5);
    let mut volumes = vec![w.grid, object.grid];
    let b = VolumesBuilder::build_full(&mut volumes);
    let d = dump_voxel_buffers(&b).expect("two volumes");
    let bufs = b.volume_buffers();
    assert_eq!(d.head_words, 16 + 2 * 16);
    assert_eq!(d.words[0], DUMP_MAGIC);
    assert_eq!(d.words[1], 2);
    assert_eq!(d.words[2], 2);
    assert_eq!(d.words[3] as usize, bufs[0].b_struct.len() + bufs[1].b_struct.len());
    assert_eq!(d.words[5], 1024);
    assert_eq!(d.words[6] as i32, -1);
    assert_eq!(d.words[12], 2);
    // row 0: the main world stands behind the object
    assert_eq!(d.words[16] as usize, bufs[1].b_struct.len());
    assert_eq!(d.words[32], 0);
    assert_eq!(
        &d.words[d.head_words..d.head_words + bufs[1].b_struct.len()],
        &bufs[1].b_struct[..]
    );
    let file = d.file();
    assert_eq!(&file[..4], b"VOXD");
    assert_eq!(file.len(), 4 * d.words.len());

    let payload = file[4 * d.head_words..].to_vec();
    let other = read_back_file(&file, 4 * d.head_words, &payload);
    assert_eq!(compare_files(&file, &other), DumpVerdict::Same);
    let mut bad = other.clone();
    bad[200] ^= 1;
    assert_eq!(compare_files(&file, &bad), DumpVerdict::FirstDifference(200));
    bad[200] ^= 1;
    bad.push(0);
    assert_eq!(compare_files(&file, &bad), DumpVerdict::LengthDiffers);

    assert_eq!(short_buffer([10, 20, 30], [10, 20, 30]), None);
    assert_eq!(short_buffer([10, 19, 0], [10, 20, 30]), Some(1));
    assert!(dump_voxel_buffers(&VolumesBuilder::build_full(&mut vec![])).is_none());
}

// ---- rays ----

#[derive(Debug, Clone, Copy, PartialEq)]
struct Hit {
    t: f32,
    pal: u16,
    voxel: IVec3,
    face: IVec3,
}

/// Walks through one chunk; the machine decides, floats measure.
fn trace_chunk(
    tree: &ChunkTree,
    lut: &Vec<u64>,
    chunk_min: [f32; 3],
    ro: [f32; 3],
    rd: [f32; 3],
    up: [bool; 3],
    t0: f32,
    t1: f32,
    entry_face: u8,
) -> Option<(f32, u16, u8, IVec3)> {
    if t0 >= t1 {
        return None;
    }
    let ro_c = [ro[0] - chunk_min[0], ro[1] - chunk_min[1], ro[2] - chunk_min[2]];
    let at = |t: f32| {
        v3(
            (ro_c[0] + rd[0] * t).floor() as i32,
            (ro_c[1] + rd[1] * t).floor() as i32,
            (ro_c[2] + rd[2] * t).floor() as i32,
        )
    };
    let mut m = March::new(at(t0), entry_face, up);
    let mut cur_t = t0;
    for _ in 0..65536 {
        match m.look(tree, lut) {
            Look::Hit(p) => return Some((cur_t, p, m.face, m.v)),
            Look::Gone => return None,
            Look::Air => {}
        }
        let s = 1i32 << (m.level * 2);
        let mut side = [1e30f32; 3];
        let v = [m.v.x, m.v.y, m.v.z];
        for i in 0..3 {
            if rd[i].abs() > 1e-30 {
                let base = v[i] & !(s - 1);
                let boundary = if up[i] { base + s } else { base };
                side[i] = ((boundary as f32 - ro_c[i]) * (1.0 / rd[i])).max(cur_t);
            }
        }
        let (axis, crossed) = loop {
            let a = if side[0] <= side[1] && side[0] <= side[2] {
                0
            } else if side[1] <= side[2] {
                1
            } else {
                2
            };
            cur_t = side[a];
            if cur_t >= t1 {
                return None;
            }
            side[a] += s as f32 * (1.0 / rd[a]).abs();
            match m.step(tree, a, at(cur_t)) {
                Met::Hit(p) => return Some((cur_t, p, m.face, m.v)),
                Met::Air => {}
                Met::Split => break (a, false),
                Met::Crossed => break (a, true),
            }
        };
        if !m.climb(axis, crossed, at(cur_t)) {
            return None;
        }
    }
    None
}

fn slab(ro: [f32; 3], rd: [f32; 3], lo: [f32; 3], hi: [f32; 3], t0: f32, t1: f32) -> (f32, f32) {
    let (mut a, mut b) = (t0, t1);
    for i in 0..3 {
        if rd[i].abs() < 1e-30 {
            if ro[i] < lo[i] || ro[i] > hi[i] {
                return (1.0, 0.0);
            }
        } else {
            let ta = (lo[i] - ro[i]) / rd[i];
            let tb = (hi[i] - ro[i]) / rd[i];
            a = a.max(ta.min(tb));
            b = b.min(tb.max(ta));
        }
    }
    (a, b)
}

fn raycast(grid: &VolumeGrid, lut: &Vec<u64>, ro: [f32; 3], rd: [f32; 3], t_max: f32) -> Option<Hit> {
    let (lo, hi) = occupied_window(grid)?;
    let s = CHUNK_SIZE as f32;
    let lo_f = [lo.x as f32 * s, lo.y as f32 * s, lo.z as f32 * s];
    let hi_f = [hi.x as f32 * s, hi.y as f32 * s, hi.z as f32 * s];
    let (enter, exit) = slab(ro, rd, lo_f, hi_f, 0.0, t_max);
    let (tl0, tl1) = (enter.max(0.0), exit.min(t_max));
    if tl1 <= tl0 {
        return None;
    }
    let up = [rd[0] >= 0.0, rd[1] >= 0.0, rd[2] >= 0.0];
    let mut ci = [0i32; 3];
    let mut tmax = [1e30f32; 3];
    let mut delta = [1e30f32; 3];
    for i in 0..3 {
        ci[i] = ((ro[i] + rd[i] * tl0) / s).floor() as i32;
        if rd[i].abs() > 1e-30 {
            delta[i] = rd[i].abs().recip() * s;
            let side = if up[i] { 1.0 } else { 0.0 };
            tmax[i] = (((ci[i] as f32 + side) * s - ro[i]) / rd[i]).max(tl0);
        }
    }
    let mut t_in = tl0;
    let face = first_face(
        rd[0].abs() >= rd[1].abs().max(rd[2].abs()),
        rd[1].abs() >= rd[2].abs(),
        up,
    );
    let mut walk = ChunkWalk::new(v3(ci[0], ci[1], ci[2]), face, up, lo, hi);
    loop {
        let t_out = tmax[0].min(tmax[1]).min(tmax[2]);
        if let Some(tree) = grid.chunk(ChunkCoord(walk.chunk)) {
            let min = [walk.chunk.x as f32 * s, walk.chunk.y as f32 * s, walk.chunk.z as f32 * s];
            if let Some((t, pal, f, v)) =
                trace_chunk(tree, lut, min, ro, rd, up, t_in, t_out.min(tl1), walk.face)
            {
                return Some(Hit { t, pal, voxel: walk.voxel(v), face: face_normal_from_index(f) });
            }
        }
        if t_out >= tl1 {
            return None;
        }
        let a = if tmax[0] <= tmax[1] && tmax[0] <= tmax[2] {
            0
        } else if tmax[1] <= tmax[2] {
            1
        } else {
            2
        };
        t_in = tmax[a];
        tmax[a] += delta[a];
        if !walk.step(a) {
            return None;
        }
    }
}

/// Voxel by voxel, without levels.
fn brute(w: &World, ro: [f32; 3], rd: [f32; 3], max: f32) -> Option<(IVec3, IVec3, f32)> {
    let mut v = [ro[0].floor() as i32, ro[1].floor() as i32, ro[2].floor() as i32];
    let step: Vec<i32> = rd.iter().map(|d| if *d >= 0.0 { 1 } else { -1 }).collect();
    let mut t_max = [0.0f32; 3];
    let mut t_delta = [0.0f32; 3];
    for i in 0..3 {
        let inv = 1.0 / rd[i];
        t_max[i] = ((v[i] + if step[i] > 0 { 1 } else { 0 }) as f32 - ro[i]) * inv;
        t_delta[i] = inv.abs();
    }
    let mut face = [0i32; 3];
    let mut t = 0.0f32;
    for _ in 0..(3.0 * max) as u32 + 3 {
        if w.get(v3(v[0], v[1], v[2])).is_some() {
            return Some((v3(v[0], v[1], v[2]), v3(face[0], face[1], face[2]), t));
        }
        let a = if t_max[0] <= t_max[1] && t_max[0] <= t_max[2] {
            0
        } else if t_max[1] <= t_max[2] {
            1
        } else {
            2
        };
        t = t_max[a];
        if t > max {
            return None;
        }
        v[a] += step[a];
        t_max[a] += t_delta[a];
        face = [0; 3];
        face[a] = -step[a];
    }
    None
}

fn scene() -> World {
    let mut w = World::new();
    w.fill_box(v3(0, 0, 0), v3(200, 40, 40), 1);
    w.fill_box(v3(270, 0, 0), v3(20, 40, 40), 2);
    w.fill_box(v3(-60, -60, -60), v3(2, 120, 120), 3);
    w.fill_sphere(v3(220, 120, 30), 20, 4);
    w.fill_box(v3(60, 10, 10), v3(30, 10, 10), 0);
    w
}

#[test]
fn node_desc_covers_every_solid_voxel() {
    let w = scene();
    let mut solid = 0usize;
    for c in [cc(-1, 0, -1), cc(0, 0, 0), cc(1, 0, 0)] {
        let Some(tree) = w.grid.chunk(c) else { continue };
        for z in (0..256).step_by(7) {
            for y in (0..256).step_by(7) {
                for x in (0..256).step_by(7) {
                    if tree.get_voxel(x, y, z).is_none() {
                        continue;
                    }
                    solid += 1;
                    for level in 0..=3u8 {
                        let d: NodeDesc = tree.node_desc(x, y, z, level);
                        let idx = cell_index(&[x as i32, y as i32, z as i32], 3 - level as u32);
                        assert!(
                            d.mask & (1u64 << idx) != 0 || d.palette != 0,
                            "({x},{y},{z}) at level {level}"
                        );
                    }
                }
            }
        }
    }
    assert!(solid > 100, "{solid}");
}

fn lcg(state: &mut u32) -> f32 {
    *state = state.wrapping_mul(1_664_525).wrapping_add(1_013_904_223);
    (*state >> 8) as f32 / (1u32 << 24) as f32
}

#[test]
fn matches_brute_force_on_deterministic_rays() {
    let w = scene();
    let lut = reach_lut();
    let max_dist = 800.0f32;
    let origins = [
        [150.5, 100.5, 20.5],
        [220.5, 200.5, 30.5],
        [-100.5, -100.5, -100.5],
        [300.5, 150.5, 20.5f32],
    ];
    let targets = [
        [20.0, 20.0, 20.0],
        [150.0, 20.0, 20.0],
        [280.0, 20.0, 20.0],
        [-59.0, 0.0, 0.0],
        [220.0, 130.0, 30.0f32],
    ];
    let mut state = 0x1234_5678u32;
    let mut hits = 0usize;
    let mut rays = 0usize;
    let mut check = |o: [f32; 3], d: [f32; 3]| {
        if d == [0.0, 0.0, 0.0] {
            return;
        }
        rays += 1;
        match (brute(&w, o, d, max_dist), raycast(&w.grid, &lut, o, d, max_dist)) {
            (None, None) => {}
            (Some((v, f, t)), Some(hit)) => {
                hits += 1;
                assert_eq!(hit.voxel, v, "origin={o:?} dir={d:?}");
                assert_eq!(hit.face, f, "origin={o:?} dir={d:?} voxel={v:?}");
                let tol = 1e-3 + 1e-4 * t.abs();
                assert!((hit.t - t).abs() <= tol, "origin={o:?} dir={d:?} t: {t} vs {}", hit.t);
            }
            (a, b) => panic!("origin={o:?} dir={d:?}: brute={a:?} march={b:?}"),
        }
    };
    for o in origins {
        for target in targets {
            for _ in 0..12 {
                let j = [
                    (lcg(&mut state) - 0.5) * 40.0,
                    (lcg(&mut state) - 0.5) * 40.0,
                    (lcg(&mut state) - 0.5) * 40.0,
                ];
                let d = [
                    target[0] + j[0] - o[0],
                    target[1] + j[1] - o[1],
                    target[2] + j[2] - o[2],
                ];
                let len = (d[0] * d[0] + d[1] * d[1] + d[2] * d[2]).sqrt();
                check(o, [d[0] / len, d[1] / len, d[2] / len]);
            }
        }
        for a in 0..3 {
            for s in [1.0f32, -1.0] {
                let mut d = [0.0f32; 3];
                d[a] = s;
                check(o, d);
            }
        }
    }
    assert!(hits > rays / 3, "{hits}/{rays}");
}

#[test]
fn reach_is_unbounded_and_face_points_back() {
    let mut w = World::new();
    w.set(v3(500, 0, 0), 1);
    let lut = reach_lut();
    let o = [-1000.5, 0.5, 0.5];
    let hit = raycast(&w.grid, &lut, o, [1.0, 0.0, 0.0], f32::INFINITY).expect("a hit");
    assert_eq!(hit.voxel, v3(500, 0, 0));
    assert_eq!(hit.face, v3(-1, 0, 0));
    assert_eq!(hit.pal, 1);
    assert!((hit.t - 1500.5).abs() < 1e-3, "t={}", hit.t);
    assert!(w.get(v3(hit.voxel.x + hit.face.x, 0, 0)).is_none());
    let empty = VolumeGrid::new();
    assert!(raycast(&empty, &lut, [0.0; 3], [1.0, 0.0, 0.0], f32::INFINITY).is_none());
    assert!(raycast(&w.grid, &lut, o, [-1.0, 0.0, 0.0], f32::INFINITY).is_none());
}

#[test]
fn a_climb_finds_the_coarsest_cell_that_starts_there() {
    // stepping up out of voxel 63 of a row leads to 64, where a 64-voxel cell starts
    let tree = ChunkTree { nodes: vec![Some(node(0, 0))] };
    let mut m = March::new(v3(63, 10, 10), 0, [true; 3]);
    m.level = 0;
    m.desc = tree.node_desc(63, 10, 10, 3);
    assert_eq!(m.step(&tree, 0, v3(64, 10, 10)), Met::Crossed);
    assert_eq!(m.v, v3(64, 10, 10));
    assert_eq!(m.face, 0);
    assert!(m.climb(0, true, v3(64, 10, 10)));
    assert_eq!((m.level, m.v), (3, v3(64, 8, 8).max(v3(64, 10, 10))));
    // and out of voxel 255 leaves the chunk
    let mut m = March::new(v3(255, 0, 0), 0, [true; 3]);
    m.desc = tree.node_desc(255, 0, 0, 0);
    assert_eq!(m.step(&tree, 0, v3(256, 0, 0)), Met::Crossed);
    assert!(!m.climb(0, true, v3(256, 0, 0)));
    // down out of voxel 0 as well
    let mut m = March::new(v3(0, 0, 0), 0, [false; 3]);
    m.desc = tree.node_desc(0, 0, 0, 0);
    assert_eq!(m.step(&tree, 2, v3(0, 0, -1)), Met::Crossed);
    assert_eq!((m.v, m.face), (v3(0, 0, -1), 5));
    assert!(!m.climb(2, true, v3(0, 0, -1)));
}

#[test]
fn an_air_chunk_is_skipped_whole() {
    let tree = ChunkTree { nodes: vec![Some(node(0, 0))] };
    let lut = reach_lut();
    let mut m = March::new(v3(3, 3, 3), 0, [true; 3]);
    assert_eq!(m.look(&tree, &lut), Look::Gone);
    let solid = ChunkTree { nodes: vec![Some(node(0, 6))] };
    assert_eq!(m.look(&solid, &lut), Look::Hit(6));
}

#[test]
fn a_walk_counts_its_chunks() {
    let mut w = ChunkWalk::new(v3(0, 2, 1), 4, [true, false, true], v3(0, 0, 0), v3(3, 3, 3));
    assert_eq!(w.left, 43);
    assert!(w.step(1));
    assert_eq!((w.chunk, w.face, w.left), (v3(0, 1, 1), 3, 42));
    assert!(w.step(2));
    assert_eq!((w.chunk, w.face), (v3(0, 1, 2), 4));
    w.left = 1;
    assert!(!w.step(0));
    assert_eq!(w.voxel(v3(1, 2, 3)), v3(257, 258, 515));
    assert_eq!(first_face(true, true, [true, true, true]), 0);
    assert_eq!(first_face(false, true, [true, false, true]), 3);
    assert_eq!(first_face(false, false, [true, false, false]), 5);
}

#[test]
fn pinned_windows_move_and_others_stay() {
    let (w, c0, _) = two_chunk_grid();
    let mut object = World::new();
    object.fill_box(v3(0, 0, 0), v3(4, 4, 4), 5);
    let mut volumes = vec![w.grid, object.grid];
    let mut b = VolumesBuilder::build_full(&mut volumes);
    let other = b.window_of(1).unwrap();
    volumes[0].stream_window = Some((v3(-1, -2, -3), v3(4, 5, 6)));
    b.sync_windows(&volumes);
    assert_eq!(b.window_of(0), Some((v3(-1, -2, -3), v3(4, 5, 6))));
    assert_eq!(b.window_of(1), Some(other));
    assert_eq!(b.window_of(2), None);
    assert!(b.is_resident(0, c0));
    // a chunk that the window leaves behind gives its block back
    volumes[0].stream_window = Some((v3(40, 0, 0), v3(4, 4, 4)));
    b.sync_windows(&volumes);
    assert!(!b.is_resident(0, c0));
}

/// Marked words, and nothing else.
fn marked(b: &mut BrickMapBuilder) -> Vec<usize> {
    let mut words: Vec<usize> = b
        .take_dirty_ranges()
        .struct_ranges
        .iter()
        .flat_map(|(lo, hi)| lo / 4..hi / 4)
        .collect();
    words.sort();
    words.dedup();
    words
}

#[test]
fn marks_stay_with_what_changed() {
    let (mut w, c0, c1) = two_chunk_grid();
    let mut b = BrickMapBuilder::build_full(&mut w.grid);
    let _ = b.take_dirty_ranges();
    let (i0, i1) = (b.window_word(c0).unwrap(), b.window_word(c1).unwrap());

    // giving a block back marks its index entry only
    assert!(b.evict(c0));
    assert_eq!(marked(&mut b), vec![i0]);

    // installing marks the entry and the new block, nothing of the other chunk
    assert!(b.ensure_resident(&w.grid, c0));
    let base = b.chunk_base(c0).unwrap();
    let other = b.chunk_base(c1).unwrap();
    let words = marked(&mut b);
    assert!(words.contains(&i0) && words.contains(&base));
    assert!(!words.contains(&i1) && !words.contains(&other));

    // a moved window marks the index only
    let (origin, dims) = b.window();
    b.set_window(v3(origin.x - 1, origin.y, origin.z), v3(dims.x + 1, dims.y, dims.z));
    assert_eq!(marked(&mut b), (0..TREE_BASE).collect::<Vec<usize>>());

    // packing marks what it moves
    assert!(b.evict(c0));
    let _ = b.take_dirty_ranges();
    let before = b.chunk_base(c1).unwrap();
    b.compact();
    let after = b.chunk_base(c1).unwrap();
    let words = marked(&mut b);
    let entry = b.window_word(c1).unwrap();
    assert_eq!(after, TREE_BASE);
    if before == after {
        assert!(words.is_empty());
    } else {
        assert_eq!(words[0], entry);
        assert!(words[1..].iter().all(|x| *x >= after));
    }
}

// ---- objects among the world ----

const FORMAT: TileFormat = TileFormat {
    bitmap_base: 0,
    dir_base: 1024,
    node_stream_base: 33792,
    palette_words: 512,
    uniform_mask: 0xFF,
    has_l1: 0x100,
    has_l2: 0x200,
    has_l3: 0x400,
    has_brick: 0x800,
    tag_shift: 8,
    tag_mask: 3,
    tag_empty: 0,
    tag_leaf: 1,
    palette_shift: 0,
};

/// A box of one colour in the lowest corner of a tile.
fn object_box(ext: usize, pal: u32) -> MovObject {
    let mut b_struct = vec![0u32; FORMAT.node_stream_base];
    let n = ext / 16;
    for z in 0..n {
        for y in 0..n {
            for x in 0..n {
                let ci = z * 1024 + y * 32 + x;
                b_struct[ci / 32] |= 1 << (ci % 32);
                b_struct[FORMAT.dir_base + ci] = b_struct.len() as u32;
                b_struct.push(pal);
            }
        }
    }
    let node_words = (b_struct.len() - FORMAT.node_stream_base) as u32;
    MovObject {
        b_struct,
        b_leaves: vec![],
        b_palette: vec![0; 512],
        tile_count: 1,
        node_words,
        brick_slabs: 0,
    }
}

/// A solid world of two chunks per edge.
fn world_box(pal: u16) -> VolumeGrid {
    let mut g = VolumeGrid::new();
    for x in 0..2 {
        for y in 0..2 {
            for z in 0..2 {
                g.chunks.insert(cc(x, y, z), ChunkTree { nodes: vec![Some(node(0, pal))] });
            }
        }
    }
    g
}

/// Where an object stands: position, its axes in the world, and its size.
#[derive(Clone, Copy)]
struct Place {
    pos: [f32; 3],
    axes: [[f32; 3]; 3],
    scale: f32,
}

const STRAIGHT: [[f32; 3]; 3] = [[1.0, 0.0, 0.0], [0.0, 1.0, 0.0], [0.0, 0.0, 1.0]];

fn dot(a: [f32; 3], b: [f32; 3]) -> f32 {
    a[0] * b[0] + a[1] * b[1] + a[2] * b[2]
}

impl Place {
    fn to_local(&self, v: [f32; 3]) -> [f32; 3] {
        self.axes.map(|a| dot(v, a) / self.scale)
    }

    fn ray(&self, ro: [f32; 3], rd: [f32; 3]) -> ([f32; 3], [f32; 3]) {
        let from = [ro[0] - self.pos[0], ro[1] - self.pos[1], ro[2] - self.pos[2]];
        (self.to_local(from), self.to_local(rd))
    }
}

fn first_axis(t: [f32; 3]) -> usize {
    if t[0] <= t[1] && t[0] <= t[2] {
        0
    } else if t[1] <= t[2] {
        1
    } else {
        2
    }
}

fn voxel_at(ro: [f32; 3], rd: [f32; 3], t: f32) -> IVec3 {
    v3(
        (ro[0] + rd[0] * t).floor() as i32,
        (ro[1] + rd[1] * t).floor() as i32,
        (ro[2] + rd[2] * t).floor() as i32,
    )
}

/// The first voxel of an object on a ray; the walks decide, floats measure.
fn object_ray(
    pool: &MovPoolPacked,
    place: &Place,
    ro: [f32; 3],
    rd: [f32; 3],
    t_cap: f32,
) -> Option<(f32, u8)> {
    let (lo, ld) = place.ray(ro, rd);
    let (enter, exit) = slab(lo, ld, [0.0; 3], [512.0; 3], 0.0, t_cap);
    let tl0 = enter.max(0.0);
    if exit <= tl0 {
        return None;
    }
    let dsc = pool.descs[0];
    let up = ld.map(|c| c >= 0.0);
    let start = [lo[0] + ld[0] * tl0, lo[1] + ld[1] * tl0, lo[2] + ld[2] * tl0];
    let first = voxel_at(start, ld, 0.0);
    let mut cell = [first.x, first.y, first.z].map(|c| (c >> 4).clamp(0, 31) as u32);
    let (mut tmax, mut delta) = ([f32::INFINITY; 3], [f32::INFINITY; 3]);
    for i in 0..3 {
        if ld[i].abs() > 1e-30 {
            delta[i] = (1.0 / ld[i]).abs();
            let boundary = ((cell[i] + u32::from(up[i])) * 16) as f32;
            tmax[i] = ((boundary - start[i]) / ld[i]).max(0.0);
        }
    }
    let (end, mut t_in) = (exit - tl0, 0.0f32);
    for _ in 0..CELL_STEPS {
        let t_out = tmax[0].min(tmax[1]).min(tmax[2]);
        if obj_cell_occupied(pool, &dsc, cell) {
            let mut scan = FineScan::new(voxel_at(start, ld, t_in), cell, up);
            let at = [scan.at.x, scan.at.y, scan.at.z];
            let mut fine = [f32::INFINITY; 3];
            for i in 0..3 {
                if ld[i].abs() > 1e-30 {
                    let boundary = (at[i] + i32::from(up[i])) as f32;
                    fine[i] = ((boundary - start[i]) / ld[i]).max(t_in);
                }
            }
            let mut t = t_in;
            loop {
                let pal = scan.look(pool, &dsc, &FORMAT);
                if pal != 0 {
                    return Some((tl0 + t, pal));
                }
                let a = first_axis(fine);
                t = fine[a];
                fine[a] += delta[a];
                if t >= t_out.min(end) || !scan.step(a) {
                    break;
                }
            }
        }
        if t_out >= end {
            return None;
        }
        let a = first_axis(tmax);
        t_in = tmax[a];
        tmax[a] += delta[a] * 16.0;
        cell = step_cell(cell, a, up[a])?;
    }
    None
}

/// What comes first, the world or the object: distance, colour and object.
fn trace_scene(
    world: &VolumeGrid,
    pool: &MovPoolPacked,
    place: &Place,
    ro: [f32; 3],
    rd: [f32; 3],
    t_max: f32,
) -> Option<(f32, u16, u32)> {
    let best = raycast(world, &reach_lut(), ro, rd, t_max).map(|h| (h.t, h.pal, OBJ_WORLD));
    let cap = best.map_or(t_max, |b| b.0);
    match object_ray(pool, place, ro, rd, cap) {
        Some((t, pal)) if best.is_none_or(|b| t < b.0) => Some((t, pal as u16, 0)),
        _ => best,
    }
}

fn pack_one(ext: usize, pal: u32) -> MovPoolPacked {
    pack_mov_pool(&vec![object_box(ext, pal)], &FORMAT)
}

#[test]
fn occlusion_front_and_back() {
    let world = world_box(1);
    let pool = pack_one(64, 2);
    let place = Place { pos: [600.0, 100.0, 100.0], axes: STRAIGHT, scale: 1.0 };
    let ro = [2000.0, 132.0, 132.0];
    let hit = trace_scene(&world, &pool, &place, ro, [-1.0, 0.0, 0.0], 8192.0).unwrap();
    assert_eq!((hit.2, hit.1), (0, 2));
    assert!((hit.0 - (2000.0 - 664.0)).abs() < 1.0, "t={}", hit.0);
    let ro = [-1000.0, 132.0, 132.0];
    let hit = trace_scene(&world, &pool, &place, ro, [1.0, 0.0, 0.0], 8192.0).unwrap();
    assert_eq!((hit.2, hit.1), (OBJ_WORLD, 1));
    assert!((hit.0 - 1000.0).abs() < 1.0);
}

#[test]
fn rotation_yaw_90() {
    let world = VolumeGrid::new();
    let pool = pack_one(64, 2);
    // a quarter turn about y: the object's z runs along the world's x
    let axes = [[0.0, 0.0, -1.0], [0.0, 1.0, 0.0], [1.0, 0.0, 0.0]];
    let place = Place { pos: [1000.0, 0.0, 1000.0], axes, scale: 1.0 };
    let down_z = [0.0, 0.0, -1.0];
    let inside = trace_scene(&world, &pool, &place, [1032.0, 32.0, 3000.0], down_z, 8192.0);
    let outside = trace_scene(&world, &pool, &place, [1100.0, 32.0, 3000.0], down_z, 8192.0);
    assert!(outside.is_none());
    let hit = inside.unwrap();
    assert_eq!(hit.2, 0);
    assert!((hit.0 - (3000.0 - 1000.0)).abs() < 1.5, "t={}", hit.0);
}

#[test]
fn scale_2_doubles_extent() {
    let world = VolumeGrid::new();
    let pool = pack_one(64, 2);
    let place = Place { pos: [1000.0, 0.0, 1000.0], axes: STRAIGHT, scale: 2.0 };
    let down_x = [-1.0, 0.0, 0.0];
    let hit = trace_scene(&world, &pool, &place, [2000.0, 64.0, 1064.0], down_x, 8192.0).unwrap();
    assert!((hit.0 - (2000.0 - 1128.0)).abs() < 1.0, "t={}", hit.0);
    assert!(trace_scene(&world, &pool, &place, [2000.0, 64.0, 1129.0], down_x, 8192.0).is_none());
}

#[test]
fn overlap_nearest_surface_wins() {
    let world = world_box(1);
    let pool = pack_one(64, 2);
    let place = Place { pos: [480.0, 400.0, 400.0], axes: STRAIGHT, scale: 1.0 };
    let ro = [2000.0, 432.0, 432.0];
    let hit = trace_scene(&world, &pool, &place, ro, [-1.0, 0.0, 0.0], 8192.0).unwrap();
    assert_eq!(hit.2, 0);
    assert!((hit.0 - (2000.0 - 544.0)).abs() < 1.0);
    let ro = [-500.0, 432.0, 432.0];
    let hit = trace_scene(&world, &pool, &place, ro, [1.0, 0.0, 0.0], 8192.0).unwrap();
    assert_eq!(hit.2, OBJ_WORLD);
    assert!((hit.0 - 500.0).abs() < 1.0);
    let d = 1.0 / 3.0f32.sqrt();
    let hit = trace_scene(&world, &pool, &place, [-200.0; 3], [d; 3], 8192.0).unwrap();
    assert_eq!(hit.2, OBJ_WORLD);
}

#[test]
fn object_hit_is_transformed() {
    let mut object = World::new();
    object.set(v3(0, 0, 0), 5);
    let place = Place { pos: [1000.0, 0.0, 0.0], axes: STRAIGHT, scale: 2.0 };
    let (ro, rd) = place.ray([900.5, 0.5, 0.5], [1.0, 0.0, 0.0]);
    let hit = raycast(&object.grid, &reach_lut(), ro, rd, 500.0).unwrap();
    assert_eq!(hit.voxel, v3(0, 0, 0));
    assert_eq!(hit.face, v3(-1, 0, 0));
    assert_eq!(hit.pal, 5);
    assert!((hit.t - 99.5).abs() < 1e-3, "t={}", hit.t);
}

#[test]
fn several_builders_follow_one_palette() {
    let (mut w, _, _) = two_chunk_grid();
    let mut a = w.build_and_drain();
    let mut b = BrickMapBuilder::build_full(&mut w.grid);
    let entry = |r: u8| gate_render::brickmap::wire::PaletteEntry {
        color: [r, 0, 0],
        ..Default::default()
    };
    w.grid.palette.set(5, entry(50));
    a.write_palette(&mut w.grid.palette);
    w.grid.palette.set(9, entry(90));
    b.write_palette(&mut w.grid.palette);
    a.write_palette(&mut w.grid.palette);
    for x in [&a, &b] {
        let p = &x.buffers().b_palette;
        assert_eq!((p[10], p[18]), (50, 90));
    }
    assert_eq!(a.buffers().b_palette, b.buffers().b_palette);
    // with a report of all that came since, only that is written
    let _ = (a.take_dirty_ranges(), b.take_dirty_ranges());
    w.grid.palette.set(3, entry(30));
    a.write_palette(&mut w.grid.palette);
    assert_eq!(a.take_dirty_ranges().palette_range, Some((3, 3)));
}

#[test]
fn a_second_update_changes_nothing() {
    let (mut w, c0, _) = two_chunk_grid();
    let mut b = w.build_and_drain();
    w.set(v3(5, 5, 5), 3);
    let dirty = w.take_dirty_of(c0);
    assert_eq!(b.update_chunk(&mut w.grid, c0, &dirty, false), ChunkUpdate::Rebuilt);
    assert!(b.has_dirty());
    let _ = b.take_dirty_ranges();
    let words = b.buffers().b_struct.clone();
    assert_eq!(b.update_chunk(&mut w.grid, c0, &dirty, false), ChunkUpdate::Rebuilt);
    assert_eq!(b.buffers().b_struct, words);
    assert!(!b.has_dirty());
}

#[test]
fn builds_depend_on_the_volume_alone() {
    let (mut w, c0, c1) = two_chunk_grid();
    let a = w.build_and_drain();
    let b = BrickMapBuilder::build_full(&mut w.grid);
    assert_eq!(a.buffers().b_struct, b.buffers().b_struct);
    assert_eq!(a.buffers().b_palette, b.buffers().b_palette);
    assert_eq!(a.buffers().globals.node_words, b.buffers().globals.node_words);
    // the first block fits the reserve, the second stands behind it
    let cap = |c| a.resident_bytes_of(c).unwrap() / 4;
    let r = BrickMapBuilder::build_full_reserved(&mut w.grid, cap(c0) + 5);
    assert_eq!(r.chunk_base(c0), Some(TREE_BASE));
    assert_eq!(r.chunk_base(c1), Some(TREE_BASE + cap(c0) + 5));
    let empty = BrickMapBuilder::new_unbuilt_reserved(&mut VolumeGrid::new(), 1 << 20);
    assert_eq!(empty.buffers().b_struct.len(), TREE_BASE + (1 << 20));
    assert!(empty.buffers().b_struct.iter().all(|w| *w == 0));
    assert!(empty.resident_chunks().is_empty());
}

#[test]
fn packing_keeps_the_words_of_blocks() {
    let (mut w, c0, c1) = two_chunk_grid();
    let mut b = w.build_and_drain();
    let block = |b: &BrickMapBuilder, c| {
        let (base, n) = (b.chunk_base(c).unwrap(), b.resident_bytes_of(c).unwrap() / 4);
        b.buffers().b_struct[base..base + n].to_vec()
    };
    let before = block(&b, c1);
    assert!(b.evict(c0));
    b.compact();
    assert_eq!(b.chunk_base(c1), Some(TREE_BASE));
    assert_eq!(block(&b, c1), before);
    assert_eq!(b.buffers().b_struct.len(), TREE_BASE + b.resident_words());
    assert!(b.ensure_resident(&w.grid, c0));
    assert!(!b.ensure_resident(&w.grid, c0));
    assert_wire_matches_grid(&b, &w, "after packing and waking");
}

#[test]
fn streaming_alone_makes_a_snapshot() {
    let (mut w, c0, c1) = two_chunk_grid();
    let _ = (w.take_dirty_of(c0), w.take_dirty_of(c1));
    let mut volumes = vec![std::mem::replace(&mut w.grid, VolumeGrid::new())];
    let mut m = mirror();
    assert!(extract(&mut m, &mut volumes, no_pending(), MODE).snapshot.is_some());
    let mut b = m.builder.take().unwrap();
    assert!(b.evict(0, c1));
    assert!(b.ensure_resident(&volumes, 0, c1));
    let base = b.chunk_base(0, c1).unwrap();
    m.builder = Some(b);
    let r = extract(&mut m, &mut volumes, no_pending(), MODE);
    assert!(r.dirty.boxes.is_empty() && !r.dirty.full && !r.dirty.palette_changed);
    let s = r.snapshot.expect("marks were left");
    assert!(!s.full);
    assert!(s.struct_blobs.iter().any(|(off, bytes)| {
        *off <= 4 * base && 4 * (base + ROOT_WIRE_WORDS) <= off + bytes.len()
    }));
    assert!(extract(&mut m, &mut volumes, no_pending(), MODE).snapshot.is_none());
}
