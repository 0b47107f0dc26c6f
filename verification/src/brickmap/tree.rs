//! Chunk trees and their wire form.
//!
//! A chunk is a 64-way tree of four levels (256 -> 64 -> 16 -> 4 -> 1 voxels per edge). A node has a
//! 64-bit child mask; a cell whose bit is clear has the node's own palette index. Nodes of the last
//! level hold their 64 voxels inline, two 16-bit palette indices per word.
//!
//! On the wire a node is `mask_lo, mask_hi, palette word`, then its child offsets (relative to the
//! root) or, on the last level, 32 inline words. The root always owns 67 words, so that it never
//! moves when its mask changes.

use crate::bits::{bit, count_ones, lemma_ones_below_bound, lemma_zero_mask, ones, ones_below};
use vstd::prelude::*;

verus! {

/// Words of a node before its children: two mask words and the palette word.
pub const NODE_FIXED_WORDS: usize = 3;

/// Inline words of a split node on the last level (two voxels per word).
pub const LEAF_INLINE_WORDS: usize = 32;

/// Words reserved for the root: the fixed words and one offset per possible child.
pub const ROOT_WIRE_WORDS: usize = 67;

/// The last level, whose nodes hold voxels inline.
pub const LEAF_LEVEL: u8 = 3;

/// Offset of a node that has no place in the block.
pub const NODE_NONE: u32 = 0xFFFF_FFFF;

/// The palette index of air.
pub const PALETTE_AIR: u16 = 0;

/// A node of a chunk tree.
#[derive(Debug, Clone)]
pub struct TreeNode {
    /// Depth: 0 is the root, 3 the last level.
    pub level: u8,
    /// Cells that have a child (or, on the last level, an inline voxel).
    pub mask: u64,
    /// Palette index of the cells whose mask bit is clear.
    pub palette: u16,
    /// Palette index that stands for the whole subtree at a distance.
    pub rep: u16,
    /// Node ids of the children, in the order of their mask bits (levels 0 to 2).
    pub children: Vec<u32>,
    /// The 64 voxels, two per word (split nodes of the last level).
    pub inline: Vec<u32>,
}

/// What a [`TreeNode`] says.
pub struct NodeModel {
    pub level: int,
    pub mask: u64,
    pub palette: u16,
    pub rep: u16,
    pub children: Seq<u32>,
    pub inline: Seq<u32>,
}

/// The nodes of a tree by id.
pub type TreeModel = Map<u32, NodeModel>;

impl View for TreeNode {
    type V = NodeModel;

    open spec fn view(&self) -> NodeModel {
        NodeModel {
            level: self.level as int,
            mask: self.mask,
            palette: self.palette,
            rep: self.rep,
            children: self.children@,
            inline: self.inline@,
        }
    }
}

/// Children and inline voxels agree with the mask and the level.
pub open spec fn node_shape(n: NodeModel) -> bool {
    &&& 0 <= n.level <= 3
    &&& n.mask == 0 ==> n.children.len() == 0 && n.inline.len() == 0
    &&& n.mask != 0 && n.level < 3 ==> n.children.len() == ones(n.mask) && n.inline.len() == 0
    &&& n.mask != 0 && n.level == 3 ==> n.children.len() == 0 && n.inline.len()
        == LEAF_INLINE_WORDS
}

/// `c` is child number `j` of `p`.
pub open spec fn is_child(m: TreeModel, p: u32, j: int, c: u32) -> bool {
    m.dom().contains(p) && 0 <= j < m[p].children.len() && m[p].children[j] == c
}

/// The nodes form a tree with root 0: children exist one level down, and no node is a child twice.
pub open spec fn tree_wf(m: TreeModel) -> bool {
    &&& m.dom().contains(0)
    &&& m[0].level == 0
    &&& forall|id: u32| #[trigger] m.dom().contains(id) ==> node_shape(m[id])
    &&& forall|id: u32| #[trigger] m.dom().contains(id) && m[id].level == 0 ==> id == 0
    &&& forall|p: u32, j: int, c: u32| #[trigger]
        is_child(m, p, j, c) ==> m.dom().contains(c) && m[c].level == m[p].level + 1
    &&& forall|p: u32, j: int, q: u32, k: int, c: u32| #[trigger]
        is_child(m, p, j, c) && #[trigger] is_child(m, q, k, c) ==> p == q && j == k
}

/// Where a node stands in its block: word offset from the block start, and words owned.
#[derive(Debug, Clone, Copy, PartialEq, Eq, Structural)]
pub struct NodeSlot {
    pub off: u32,
    pub words: u16,
}

/// Palette word: the node's palette index in the low half, the stand-in of its subtree in the high
/// half.
pub open spec fn palette_word(palette: u16, rep: u16) -> u32 {
    (palette as u32) | ((rep as u32) << 16)
}

/// Words that a node's content takes.
pub open spec fn content_len(n: NodeModel) -> int {
    3 + n.children.len() as int + n.inline.len() as int
}

/// Words that node `id` owns: its content, or the fixed reserve of the root.
pub open spec fn room(id: u32, n: NodeModel) -> int {
    if id == 0 {
        67
    } else {
        content_len(n)
    }
}

/// Word `k` of a node's content when its children stand at `slots`.
pub open spec fn wire_word(n: NodeModel, slots: Seq<NodeSlot>, k: int) -> u32 {
    if k == 0 {
        n.mask as u32
    } else if k == 1 {
        (n.mask >> 32) as u32
    } else if k == 2 {
        palette_word(n.palette, n.rep)
    } else if n.level == 3 {
        n.inline[k - 3]
    } else {
        slots[n.children[k - 3] as int].off
    }
}

/// The content of `n` stands at word `at` of `buf`.
pub open spec fn node_at(buf: Seq<u32>, at: int, n: NodeModel, slots: Seq<NodeSlot>) -> bool {
    &&& 0 <= at
    &&& at + content_len(n) <= buf.len()
    &&& forall|k: int| 0 <= k < content_len(n) ==> #[trigger] buf[at + k] == wire_word(n, slots, k)
}

/// The words that a slot owns.
pub open spec fn in_slot(s: NodeSlot, w: int) -> bool {
    s.off <= w < s.off + s.words
}

pub open spec fn apart(a: NodeSlot, b: NodeSlot) -> bool {
    a.off + a.words <= b.off || b.off + b.words <= a.off
}

/// The nodes `ids` own pairwise disjoint pieces of a block of `cap` words.
pub open spec fn slots_apart(slots: Seq<NodeSlot>, cap: int, ids: Set<u32>) -> bool {
    &&& forall|id: u32| #[trigger]
        ids.contains(id) ==> id < slots.len() && slots[id as int].off != NODE_NONE
            && slots[id as int].words >= 3 && slots[id as int].off + slots[id as int].words <= cap
    &&& forall|a: u32, b: u32| #[trigger]
        ids.contains(a) && #[trigger] ids.contains(b) && a != b ==> apart(
            slots[a as int],
            slots[b as int],
        )
}

/// Every node of `m` has its content in `buf`, whose block starts at word `base`.
pub open spec fn holds_tree(buf: Seq<u32>, base: int, slots: Seq<NodeSlot>, m: TreeModel) -> bool {
    &&& forall|id: u32| #[trigger]
        m.dom().contains(id) ==> id < slots.len() && slots[id as int].words == room(id, m[id])
            && node_at(buf, base + slots[id as int].off, m[id], slots)
    &&& slots[0].off == 0
}

/// Word `w` of a block is content of a node of `m`.
pub open spec fn is_content(slots: Seq<NodeSlot>, m: TreeModel, w: int) -> bool {
    exists|id: u32| #[trigger]
        m.dom().contains(id) && slots[id as int].off <= w < slots[id as int].off + content_len(m[id])
}

/// Palette index of voxel `(x, y, z)` inside node `id`, which spans `4^(4 - level)` voxels per
/// edge.
pub open spec fn voxel_in(m: TreeModel, id: u32, x: int, y: int, z: int) -> u16
    decreases 4 - m[id].level,
{
    let n = m[id];
    let step = child_extent(n.level);
    let cell = z / step * 16 + y / step * 4 + x / step;
    if n.mask == 0 || !bit(n.mask, cell) || !(0 <= n.level <= 3) {
        n.palette
    } else if n.level == 3 {
        half_word(n.inline[cell / 2], cell % 2)
    } else {
        let c = n.children[ones_below(n.mask, cell as nat) as int];
        if m[c].level == n.level + 1 {
            voxel_in(m, c, x % step, y % step, z % step)
        } else {
            n.palette
        }
    }
}

/// Voxels per edge of a child of a node of level `level`.
pub open spec fn child_extent(level: int) -> int {
    if level == 0 {
        64
    } else if level == 1 {
        16
    } else if level == 2 {
        4
    } else {
        1
    }
}

/// The low (`h == 0`) or high (`h == 1`) half of a word.
pub open spec fn half_word(w: u32, h: int) -> u16 {
    if h == 0 {
        (w & 0xFFFF) as u16
    } else {
        ((w >> 16) & 0xFFFF) as u16
    }
}

pub proof fn lemma_content_bound(n: NodeModel)
    requires
        node_shape(n),
    ensures
        3 <= content_len(n) <= 67,
{
    lemma_ones_below_bound(n.mask, 64);
}

pub proof fn lemma_room_bound(id: u32, n: NodeModel)
    requires
        node_shape(n),
    ensures
        3 <= room(id, n) <= 67,
        content_len(n) <= room(id, n),
{
    lemma_content_bound(n);
}

/// Words a node owns in its block.
pub fn wire_words_of(id: u32, level: u8, mask: u64) -> (r: usize)
    requires
        level <= 3,
    ensures
        r == (if id == 0 {
            67
        } else if mask == 0 {
            3
        } else if level == 3 {
            35
        } else {
            3 + ones(mask) as int
        }),
        3 <= r <= 67,
{
    if id == 0 {
        ROOT_WIRE_WORDS
    } else if mask == 0 {
        NODE_FIXED_WORDS
    } else if level == LEAF_LEVEL {
        NODE_FIXED_WORDS + LEAF_INLINE_WORDS
    } else {
        NODE_FIXED_WORDS + count_ones(mask) as usize
    }
}

pub fn pack_palette_word(palette: u16, rep: u16) -> (r: u32)
    ensures
        r == palette_word(palette, rep),
{
    (palette as u32) | ((rep as u32) << 16)
}

/// The content of `n` when its children stand at `slots`.
pub fn encode_node(n: &TreeNode, slots: &Vec<NodeSlot>) -> (out: Vec<u32>)
    requires
        node_shape(n@),
        forall|j: int| 0 <= j < n.children.len() ==> (#[trigger] n.children[j]) < slots.len(),
    ensures
        out.len() == content_len(n@),
        forall|k: int| 0 <= k < out.len() ==> #[trigger] out[k] == wire_word(n@, slots@, k),
{
    let mut out: Vec<u32> = Vec::new();
    out.push(n.mask as u32);
    out.push((n.mask >> 32) as u32);
    out.push(pack_palette_word(n.palette, n.rep));
    if n.mask != 0 {
        if n.level == LEAF_LEVEL {
            let mut i: usize = 0;
            while i < n.inline.len()
                invariant
                    i <= n.inline.len(),
                    n.level == 3,
                    n.children.len() == 0,
                    out.len() == 3 + i,
                    forall|k: int| 0 <= k < out.len() ==> #[trigger] out[k] == wire_word(n@, slots@, k),
                decreases n.inline.len() - i,
            {
                out.push(n.inline[i]);
                i += 1;
            }
        } else {
            let mut i: usize = 0;
            while i < n.children.len()
                invariant
                    i <= n.children.len(),
                    n.level < 3,
                    n.inline.len() == 0,
                    forall|j: int|
                        0 <= j < n.children.len() ==> (#[trigger] n.children[j]) < slots.len(),
                    out.len() == 3 + i,
                    forall|k: int| 0 <= k < out.len() ==> #[trigger] out[k] == wire_word(n@, slots@, k),
                decreases n.children.len() - i,
            {
                out.push(slots[n.children[i] as usize].off);
                i += 1;
            }
        }
    }
    out
}

/// Copies `src` to `buf[at..]`.
pub fn store(buf: &mut Vec<u32>, at: usize, src: &Vec<u32>)
    requires
        at + src.len() <= old(buf).len(),
    ensures
        final(buf).len() == old(buf).len(),
        forall|i: int|
            0 <= i < final(buf).len() ==> #[trigger] final(buf)[i] == (if at <= i < at + src.len() {
                src[i - at]
            } else {
                old(buf)[i]
            }),
{
    let mut i: usize = 0;
    while i < src.len()
        invariant
            i <= src.len(),
            at + src.len() <= buf.len(),
            buf.len() == old(buf).len(),
            forall|k: int|
                0 <= k < buf.len() ==> #[trigger] buf[k] == (if at <= k < at + i {
                    src[k - at]
                } else {
                    old(buf)[k]
                }),
        decreases src.len() - i,
    {
        buf[at + i] = src[i];
        i += 1;
    }
}

/// Copies `n` words from `from` to `to`; the ranges may overlap when the copy goes down.
pub fn copy_words(buf: &mut Vec<u32>, from: usize, to: usize, n: usize)
    requires
        from + n <= old(buf).len(),
        to + n <= old(buf).len(),
        to <= from || from + n <= to,
    ensures
        final(buf).len() == old(buf).len(),
        forall|i: int|
            0 <= i < final(buf).len() ==> #[trigger] final(buf)[i] == (if to <= i < to + n {
                old(buf)[i - to + from]
            } else {
                old(buf)[i]
            }),
{
    let mut i: usize = 0;
    while i < n
        invariant
            i <= n,
            from + n <= buf.len(),
            to + n <= buf.len(),
            to <= from || from + n <= to,
            buf.len() == old(buf).len(),
            forall|k: int|
                0 <= k < buf.len() ==> #[trigger] buf[k] == (if to <= k < to + i {
                    old(buf)[k - to + from]
                } else {
                    old(buf)[k]
                }),
        decreases n - i,
    {
        let v: u32 = buf[from + i];
        buf[to + i] = v;
        i += 1;
    }
}

/// Words that the first `n` nodes own.
pub open spec fn rooms(nodes: Seq<Option<TreeNode>>, n: nat) -> int
    decreases n,
{
    if n == 0 {
        0
    } else {
        rooms(nodes, (n - 1) as nat) + match nodes[n - 1] {
            Some(t) => room((n - 1) as u32, t@),
            None => 0,
        }
    }
}

pub proof fn lemma_rooms_nonneg(nodes: Seq<Option<TreeNode>>, n: nat)
    ensures
        rooms(nodes, n) >= 0,
    decreases n,
{
    if n > 0 {
        lemma_rooms_nonneg(nodes, (n - 1) as nat);
    }
}

/// A chunk's voxels as a tree.
///
/// `nodes[id]` is node `id`; ids whose entry is `None` are not part of the tree.
#[derive(Debug)]
pub struct ChunkTree {
    pub nodes: Vec<Option<TreeNode>>,
}

impl ChunkTree {
    /// The nodes by id.
    pub open spec fn model(&self) -> TreeModel {
        Map::new(
            |id: u32| id < self.nodes.len() && self.nodes[id as int] is Some,
            |id: u32| (self.nodes[id as int]->0)@,
        )
    }

    /// The nodes form a tree and its wire form has 32-bit offsets.
    pub open spec fn wf(&self) -> bool {
        &&& tree_wf(self.model())
        &&& self.nodes.len() * 67 < u32::MAX
    }

    /// Words of the whole tree in wire form.
    pub open spec fn wire_len(&self) -> int {
        rooms(self.nodes@, self.nodes@.len())
    }

    /// Where the nodes stand in wire form: one behind the other, by id.
    pub open spec fn layout(&self) -> Seq<NodeSlot> {
        Seq::new(
            self.nodes@.len(),
            |i: int|
                match self.nodes@[i] {
                    Some(t) => NodeSlot {
                        off: rooms(self.nodes@, i as nat) as u32,
                        words: room(i as u32, t@) as u16,
                    },
                    None => NodeSlot { off: NODE_NONE, words: 0 },
                },
        )
    }

    /// No voxel but air.
    pub open spec fn is_air(&self) -> bool {
        self.model()[0].mask == 0 && self.model()[0].palette == PALETTE_AIR
    }

    pub fn is_empty(&self) -> (r: bool)
        requires
            self.wf(),
        ensures
            r == self.is_air(),
    {
        assert(self.model().dom().contains(0));
        match &self.nodes[0] {
            Some(n) => n.mask == 0 && n.palette == PALETTE_AIR,
            None => true,
        }
    }

    /// Number of node ids, used or not.
    pub fn node_capacity(&self) -> (r: usize)
        ensures
            r == self.nodes.len(),
    {
        self.nodes.len()
    }

    /// Node `id`, if it is part of the tree.
    pub fn node_view(&self, id: u32) -> (r: Option<&TreeNode>)
        ensures
            match r {
                Some(n) => self.model().dom().contains(id) && n@ == self.model()[id],
                None => !self.model().dom().contains(id),
            },
    {
        if (id as usize) < self.nodes.len() {
            self.nodes[id as usize].as_ref()
        } else {
            None
        }
    }

    /// The whole tree in wire form, with the place of each node. The root stands at word 0.
    pub fn serialize_with_layout(&self) -> (r: (Vec<u32>, Vec<NodeSlot>))
        requires
            self.wf(),
        ensures
            r.1.len() == self.nodes.len(),
            67 <= r.0.len() <= 67 * self.nodes.len(),
            r.0.len() == self.wire_len(),
            slots_apart(r.1@, r.0.len() as int, self.model().dom()),
            holds_tree(r.0@, 0, r.1@, self.model()),
            forall|id: u32|
                id < r.1.len() && !self.model().dom().contains(id) ==> (#[trigger] r.1[id as int]).off
                    == NODE_NONE,
            r.1@ == self.layout(),
            forall|w: int|
                0 <= w < r.0.len() && !is_content(r.1@, self.model(), w) ==> #[trigger] r.0[w] == 0,
    {
        let ghost m = self.model();
        let n: usize = self.nodes.len();
        let mut slots: Vec<NodeSlot> = Vec::with_capacity(n);
        let mut total: usize = 0;
        let mut i: usize = 0;
        while i < n
            invariant
                n == self.nodes.len(),
                n * 67 < u32::MAX,
                m == self.model(),
                tree_wf(m),
                i <= n,
                slots.len() == i,
                total <= 67 * i,
                total == rooms(self.nodes@, i as nat),
                forall|j: int| 0 <= j < i ==> #[trigger] slots@[j] == self.layout()[j],
                i > 0 ==> total >= 67 && slots[0].off == 0,
                i == 0 ==> total == 0,
                forall|id: u32|
                    id < i ==> (#[trigger] slots[id as int]).off == NODE_NONE || slots[id as int].off
                        + slots[id as int].words <= total,
                forall|id: u32|
                    id < i ==> ((#[trigger] slots[id as int]).off == NODE_NONE
                        <==> !m.dom().contains(id)),
                forall|id: u32|
                    id < i && #[trigger] m.dom().contains(id) ==> slots[id as int].words == room(id, m[id])
                        && slots[id as int].words >= 3,
                forall|a: u32, b: u32|
                    #![trigger m.dom().contains(a), m.dom().contains(b)]
                    a < b < i && m.dom().contains(a) && m.dom().contains(b) ==> slots[a as int].off
                        + slots[a as int].words <= slots[b as int].off,
            decreases n - i,
        {
            match &self.nodes[i] {
                Some(node) => {
                    proof {
                        assert(m.dom().contains(i as u32));
                        assert(m[i as u32] == node@);
                        lemma_room_bound(i as u32, node@);
                        lemma_zero_mask(64);
                    }
                    let words: usize = wire_words_of(i as u32, node.level, node.mask);
                    slots.push(NodeSlot { off: total as u32, words: words as u16 });
                    total = total + words;
                },
                None => {
                    proof {
                        assert(!m.dom().contains(i as u32));
                    }
                    slots.push(NodeSlot { off: NODE_NONE, words: 0 });
                },
            }
            i += 1;
        }
        proof {
            assert(m.dom().contains(0));
            assert(slots@ =~= self.layout());
        }
        let mut blob: Vec<u32> = vec![0; total];
        i = 0;
        while i < n
            invariant
                n == self.nodes.len(),
                m == self.model(),
                tree_wf(m),
                i <= n,
                n * 67 < u32::MAX,
                slots.len() == n,
                blob.len() == total,
                forall|id: u32|
                    id < n && #[trigger] m.dom().contains(id) ==> slots[id as int].words == room(id, m[id])
                        && slots[id as int].off != NODE_NONE && slots[id as int].off
                        + slots[id as int].words <= total,
                forall|a: u32, b: u32|
                    #![trigger m.dom().contains(a), m.dom().contains(b)]
                    a < b < n && m.dom().contains(a) && m.dom().contains(b) ==> slots[a as int].off
                        + slots[a as int].words <= slots[b as int].off,
                forall|id: u32|
                    id < i && #[trigger] m.dom().contains(id) ==> node_at(
                        blob@,
                        slots[id as int].off as int,
                        m[id],
                        slots@,
                    ),
                forall|w: int|
                    0 <= w < total && !is_content(slots@, m, w) ==> #[trigger] blob@[w] == 0,
            decreases n - i,
        {
            if let Some(node) = &self.nodes[i] {
                let ghost id = i as u32;
                proof {
                    assert(m.dom().contains(id));
                    assert(m[id] == node@);
                    lemma_room_bound(id, node@);
                    assert forall|j: int| 0 <= j < node.children.len() implies (
                    #[trigger] node.children[j]) < slots.len() by {
                        assert(is_child(m, id, j, node.children[j]));
                    }
                }
                let out: Vec<u32> = encode_node(node, &slots);
                let at: usize = slots[i].off as usize;
                let ghost before = blob@;
                store(&mut blob, at, &out);
                proof {
                    assert forall|a: u32| a < i + 1 && #[trigger] m.dom().contains(a) implies node_at(
                        blob@,
                        slots[a as int].off as int,
                        m[a],
                        slots@,
                    ) by {
                        lemma_room_bound(a, m[a]);
                        if a < i {
                            assert(node_at(before, slots[a as int].off as int, m[a], slots@));
                            assert forall|k: int| 0 <= k < content_len(m[a]) implies #[trigger] blob@[
                            slots[a as int].off + k] == wire_word(m[a], slots@, k) by {
                                assert(before[slots[a as int].off + k] == wire_word(m[a], slots@, k));
                            }
                        } else {
                            assert forall|k: int| 0 <= k < content_len(m[a]) implies #[trigger] blob@[
                            slots[a as int].off + k] == wire_word(m[a], slots@, k) by {
                                assert(out@[k] == wire_word(m[a], slots@, k));
                            }
                        }
                    }
                    assert forall|w: int| 0 <= w < total && !is_content(slots@, m, w) implies #[trigger] blob@[w]
                        == 0 by {
                        assert(m.dom().contains(id));
                        assert(before[w] == 0);
                    }
                }
            } else {
                assert(!m.dom().contains(i as u32));
            }
            i += 1;
        }
        (blob, slots)
    }
}

/// The two halves of a word make it up, the lower one first.
pub proof fn lemma_halves(w: u32)
    ensures
        half_word(w, 0) + 65536 * half_word(w, 1) == w,
{
    assert((w & 0xFFFF) == w % 65536 && (w >> 16) & 0xFFFF == w / 65536) by (bit_vector);
}

/// The words of a node read back as its mask, lower half first, and its two palette indices.
pub proof fn lemma_header_words(n: NodeModel, slots: Seq<NodeSlot>)
    ensures
        wire_word(n, slots, 0) + 0x1_0000_0000 * wire_word(n, slots, 1) == n.mask,
        wire_word(n, slots, 2) as int % 65536 == n.palette,
        wire_word(n, slots, 2) as int / 65536 == n.rep,
{
    let (m, p, r) = (n.mask, n.palette as u32, n.rep as u32);
    assert(m as u32 == m % 0x1_0000_0000 && (m >> 32) as u32 == m / 0x1_0000_0000) by (bit_vector);
    assert((p | (r << 16)) % 65536 == p && (p | (r << 16)) / 65536 == r) by (bit_vector)
        requires
            p < 65536,
            r < 65536,
    ;
}

/// A node splits its cube into four cells along each edge.
pub proof fn lemma_child_extent(level: int)
    requires
        0 <= level < 3,
    ensures
        child_extent(level) == 4 * child_extent(level + 1),
        4 * child_extent(0) == 256,
        child_extent(3) == 1,
{
}

/// A place in a cube of four cells lies in one of them.
pub(crate) proof fn lemma_cell_on_axis(x: int, s: int)
    by (nonlinear_arith)
    requires
        s > 0,
        0 <= x < 4 * s,
    ensures
        0 <= x / s < 4,
        x % s == x - s * (x / s),
        0 <= x % s < s,
{
}

/// What a node says of the voxel `(x, y, z)` of its cube. The cells of `s` voxels along each edge are
/// numbered along `x` first, then `y`, then `z`. A cell whose bit is clear has the node's own palette
/// index; on the last level a cell is a voxel, and its index is its half of the inline words; above it
/// the cells with a child lead on to the children in this order, and the voxel is the one at the same
/// place of the child's cube.
pub proof fn lemma_node_cells(m: TreeModel, id: u32, x: int, y: int, z: int)
    requires
        tree_wf(m),
        m.dom().contains(id),
        ({
            let s = child_extent(m[id].level);
            0 <= x < 4 * s && 0 <= y < 4 * s && 0 <= z < 4 * s
        }),
    ensures
        ({
            let n = m[id];
            let s = child_extent(n.level);
            let cell = x / s + 4 * (y / s) + 16 * (z / s);
            let v = voxel_in(m, id, x, y, z);
            &&& 0 <= cell < 64
            &&& !bit(n.mask, cell) ==> v == n.palette
            &&& bit(n.mask, cell) && n.level == 3 && cell % 2 == 0 ==> v == n.inline[cell / 2] as int
                % 65536
            &&& bit(n.mask, cell) && n.level == 3 && cell % 2 == 1 ==> v == n.inline[cell / 2] as int
                / 65536
            &&& bit(n.mask, cell) && n.level < 3 ==> v == voxel_in(
                m,
                n.children[ones_below(n.mask, cell as nat) as int],
                x - s * (x / s),
                y - s * (y / s),
                z - s * (z / s),
            )
        }),
{
    let n = m[id];
    let s = child_extent(n.level);
    assert(node_shape(n));
    let cell = x / s + 4 * (y / s) + 16 * (z / s);
    lemma_cell_on_axis(x, s);
    lemma_cell_on_axis(y, s);
    lemma_cell_on_axis(z, s);
    if bit(n.mask, cell) {
        crate::bits::lemma_rank_in_range(n.mask, cell);
        if n.mask == 0 {
            crate::bits::lemma_zero_mask(64);
        }
        if n.level == 3 {
            lemma_halves(n.inline[cell / 2]);
        } else {
            let j = ones_below(n.mask, cell as nat) as int;
            assert(is_child(m, id, j, n.children[j]));
        }
    }
}

/// A tree that counts as air has no voxel that is not.
pub proof fn lemma_air_has_no_voxel(t: ChunkTree, x: int, y: int, z: int)
    requires
        t.is_air(),
    ensures
        voxel_in(t.model(), 0, x, y, z) == 0,
{
}

} // verus!
