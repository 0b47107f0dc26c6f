//! One chunk's block: the words it owns, its nodes and its free pieces.

use super::free_runs::FreeRuns;
use super::tree::{
    apart, content_len, holds_tree, in_slot, is_child, lemma_room_bound, node_at, room, slots_apart,
    tree_wf, wire_word, wire_words_of, NodeSlot, TreeModel, NODE_FIXED_WORDS,
};
use crate::bits::{count_ones, lemma_join_mask, lemma_zero_mask, read_mask};
use vstd::prelude::*;

verus! {

/// The block of one chunk. It starts at the root; node offsets are relative to that start, so that
/// a block moves as a whole without a change to its content.
pub struct ChunkSlot {
    /// First word of the block.
    pub base: usize,
    /// Words of the block.
    pub cap: usize,
    /// Free words of the block, relative to `base`.
    pub free: FreeRuns,
    /// Places of the nodes, by node id.
    pub nodes: Vec<NodeSlot>,
    /// The tree that the block holds.
    pub tree: Ghost<TreeModel>,
}

/// No word owned by a node of `ids` is free.
pub open spec fn clear_of(free: FreeRuns, slots: Seq<NodeSlot>, ids: Set<u32>) -> bool {
    forall|id: u32, w: int|
        ids.contains(id) && #[trigger] in_slot(slots[id as int], w) ==> !#[trigger] free.has(w)
}

impl ChunkSlot {
    /// The nodes `ids` own disjoint pieces of the block and the free pieces are apart from them.
    pub open spec fn arena_ok(&self, ids: Set<u32>) -> bool {
        &&& self.free.wf()
        &&& forall|w: int| #[trigger] self.free.has(w) ==> 0 <= w < self.cap
        &&& slots_apart(self.nodes@, self.cap as int, ids)
        &&& clear_of(self.free, self.nodes@, ids)
    }

    /// The block holds its tree.
    pub open spec fn block_ok(&self, buf: Seq<u32>) -> bool {
        &&& tree_wf(self.tree@)
        &&& self.arena_ok(self.tree@.dom())
        &&& holds_tree(buf, self.base as int, self.nodes@, self.tree@)
        &&& 67 <= self.cap
        &&& self.base + self.cap <= buf.len()
    }
}

/// A block is read only inside its own words.
pub proof fn lemma_block_frame(s: ChunkSlot, b0: Seq<u32>, b1: Seq<u32>)
    requires
        s.block_ok(b0),
        s.base + s.cap <= b1.len(),
        forall|w: int| s.base <= w < s.base + s.cap ==> #[trigger] b1[w] == b0[w],
    ensures
        s.block_ok(b1),
{
    let m = s.tree@;
    assert forall|id: u32| #[trigger] m.dom().contains(id) implies id < s.nodes@.len()
        && s.nodes@[id as int].words == room(id, m[id]) && node_at(
        b1,
        s.base + s.nodes@[id as int].off,
        m[id],
        s.nodes@,
    ) by {
        lemma_room_bound(id, m[id]);
        let at = s.base + s.nodes@[id as int].off;
        assert(node_at(b0, at, m[id], s.nodes@));
        assert forall|k: int| 0 <= k < content_len(m[id]) implies #[trigger] b1[at + k] == wire_word(
            m[id],
            s.nodes@,
            k,
        ) by {
            assert(b0[at + k] == wire_word(m[id], s.nodes@, k));
        }
    }
}

/// A block whose words are all copied to another place still holds its tree.
pub proof fn lemma_block_moved(s: ChunkSlot, t: ChunkSlot, b0: Seq<u32>, b1: Seq<u32>)
    requires
        s.block_ok(b0),
        t.cap == s.cap,
        t.free == s.free,
        t.nodes == s.nodes,
        t.tree == s.tree,
        t.base + t.cap <= b1.len(),
        forall|w: int| t.base <= w < t.base + t.cap ==> #[trigger] b1[w] == b0[w - t.base + s.base],
    ensures
        t.block_ok(b1),
{
    let m = s.tree@;
    assert forall|id: u32| #[trigger] m.dom().contains(id) implies id < t.nodes@.len()
        && t.nodes@[id as int].words == room(id, m[id]) && node_at(
        b1,
        t.base + t.nodes@[id as int].off,
        m[id],
        t.nodes@,
    ) by {
        lemma_room_bound(id, m[id]);
        let a0 = s.base + s.nodes@[id as int].off;
        let a1 = t.base + s.nodes@[id as int].off;
        assert(node_at(b0, a0, m[id], s.nodes@));
        assert forall|k: int| 0 <= k < content_len(m[id]) implies #[trigger] b1[a1 + k] == wire_word(
            m[id],
            s.nodes@,
            k,
        ) by {
            assert(b0[a0 + k] == wire_word(m[id], s.nodes@, k));
        }
    }
}

/// `y` is `x` or lies below it, at most `d` levels down.
pub open spec fn below(m: TreeModel, x: u32, y: u32, d: nat) -> bool
    decreases d,
{
    x == y || (d > 0 && exists|j: int|
        is_child(m, x, j, #[trigger] m[x].children[j]) && below(
            m,
            m[x].children[j],
            y,
            (d - 1) as nat,
        ))
}

/// A node below another is in the tree and deeper, or the same.
pub proof fn lemma_below_level(m: TreeModel, x: u32, y: u32, d: nat)
    requires
        tree_wf(m),
        m.dom().contains(x),
        below(m, x, y, d),
    ensures
        m.dom().contains(y),
        m[y].level >= m[x].level,
        m[y].level == m[x].level ==> x == y,
        y == 0 ==> x == 0,
    decreases d,
{
    if x != y {
        let j = choose|j: int|
            is_child(m, x, j, #[trigger] m[x].children[j]) && below(
                m,
                m[x].children[j],
                y,
                (d - 1) as nat,
            );
        assert(is_child(m, x, j, m[x].children[j]));
        lemma_below_level(m, m[x].children[j], y, (d - 1) as nat);
    }
}

/// Subtrees of two nodes of one level have no node in common.
pub proof fn lemma_below_apart(m: TreeModel, a: u32, b: u32, y: u32, d: nat)
    requires
        tree_wf(m),
        m.dom().contains(a),
        m.dom().contains(b),
        m[a].level == m[b].level,
        below(m, a, y, d),
        below(m, b, y, d),
    ensures
        a == b,
    decreases d,
{
    lemma_below_level(m, a, y, d);
    lemma_below_level(m, b, y, d);
    if a != y && b != y {
        let j = choose|j: int|
            is_child(m, a, j, #[trigger] m[a].children[j]) && below(
                m,
                m[a].children[j],
                y,
                (d - 1) as nat,
            );
        let k = choose|k: int|
            is_child(m, b, k, #[trigger] m[b].children[k]) && below(
                m,
                m[b].children[k],
                y,
                (d - 1) as nat,
            );
        let (ca, cb) = (m[a].children[j], m[b].children[k]);
        assert(is_child(m, a, j, ca));
        assert(is_child(m, b, k, cb));
        lemma_below_apart(m, ca, cb, y, (d - 1) as nat);
        assert(is_child(m, b, k, ca));
    }
}

/// `ids` without the subtrees of the first `n` children of `x`.
pub open spec fn minus_children(ids: Set<u32>, m: TreeModel, x: u32, n: int, d: nat) -> Set<u32> {
    Set::new(
        |y: u32|
            ids.contains(y) && !(exists|j: int|
                0 <= j < n && is_child(m, x, j, #[trigger] m[x].children[j]) && below(
                    m,
                    m[x].children[j],
                    y,
                    d,
                )),
    )
}

/// `ids` without the subtree of `x`.
pub open spec fn minus_below(ids: Set<u32>, m: TreeModel, x: u32, d: nat) -> Set<u32> {
    Set::new(|y: u32| ids.contains(y) && !below(m, x, y, d))
}

/// Word `w` is owned by a node at or below `x`.
pub open spec fn owned_below(slots: Seq<NodeSlot>, m: TreeModel, x: u32, d: nat, w: int) -> bool {
    exists|y: u32| #[trigger] below(m, x, y, d) && in_slot(slots[y as int], w)
}

/// Word `w` is owned by a node at or below one of the first `n` children of `x`.
pub open spec fn owned_by_children(
    slots: Seq<NodeSlot>,
    m: TreeModel,
    x: u32,
    n: int,
    d: nat,
    w: int,
) -> bool {
    exists|j: int|
        0 <= j < n && is_child(m, x, j, #[trigger] m[x].children[j]) && owned_below(
            slots,
            m,
            m[x].children[j],
            d,
            w,
        )
}

/// The words at and below `x` are its own and those of its children's subtrees.
proof fn lemma_owned_below(slots: Seq<NodeSlot>, m: TreeModel, x: u32, d: nat, w: int)
    requires
        d > 0 || m[x].children.len() == 0,
    ensures
        owned_below(slots, m, x, d, w) <==> in_slot(slots[x as int], w) || owned_by_children(
            slots,
            m,
            x,
            m[x].children.len() as int,
            (d - 1) as nat,
            w,
        ),
{
    let e = (d - 1) as nat;
    if owned_below(slots, m, x, d, w) && !in_slot(slots[x as int], w) {
        let y = choose|y: u32| #[trigger] below(m, x, y, d) && in_slot(slots[y as int], w);
        let j = choose|j: int|
            is_child(m, x, j, #[trigger] m[x].children[j]) && below(m, m[x].children[j], y, e);
        assert(owned_below(slots, m, m[x].children[j], e, w));
    }
    if in_slot(slots[x as int], w) {
        assert(below(m, x, x, d));
    }
    if owned_by_children(slots, m, x, m[x].children.len() as int, e, w) {
        let j = choose|j: int|
            0 <= j < m[x].children.len() && is_child(m, x, j, #[trigger] m[x].children[j])
                && owned_below(slots, m, m[x].children[j], e, w);
        let y = choose|y: u32| #[trigger]
            below(m, m[x].children[j], y, e) && in_slot(slots[y as int], w);
        assert(below(m, x, y, d));
    }
}

/// Every node at or below `x` has its words in the block as tree `m` has it.
pub open spec fn subtree_held(
    s: ChunkSlot,
    buf: Seq<u32>,
    m: TreeModel,
    x: u32,
    d: nat,
    ids: Set<u32>,
) -> bool {
    forall|y: u32| #[trigger]
        below(m, x, y, d) ==> ids.contains(y) && s.nodes@[y as int].words == room(y, m[y]) && node_at(
            buf,
            s.base + s.nodes@[y as int].off,
            m[y],
            s.nodes@,
        )
}

/// Frees everything below node `x`, whose content stands at `off`: exactly the words of the nodes
/// below it become free.
///
/// The child offsets are read from the block as it stands.
pub fn free_children(
    buf: &Vec<u32>,
    slot: &mut ChunkSlot,
    off: u32,
    level: u8,
    Ghost(m): Ghost<TreeModel>,
    Ghost(x): Ghost<u32>,
    Ghost(ids): Ghost<Set<u32>>,
)
    requires
        tree_wf(m),
        m.dom().contains(x),
        m[x].level == level,
        level <= 3,
        old(slot).base + old(slot).cap <= buf.len(),
        old(slot).arena_ok(ids),
        subtree_held(*old(slot), buf@, m, x, (3 - level) as nat, ids),
        off == old(slot).nodes@[x as int].off,
    ensures
        final(slot).base == old(slot).base,
        final(slot).cap == old(slot).cap,
        final(slot).nodes == old(slot).nodes,
        final(slot).tree == old(slot).tree,
        final(slot).arena_ok(
            minus_children(ids, m, x, m[x].children.len() as int, (2 - level) as nat),
        ),
        forall|w: int| #[trigger]
            final(slot).free.has(w) <==> old(slot).free.has(w) || owned_by_children(
                old(slot).nodes@,
                m,
                x,
                m[x].children.len() as int,
                (2 - level) as nat,
                w,
            ),
    decreases 2 * (3 - level),
{
    let ghost d = (3 - level) as nat;
    let ghost e = (2 - level) as nat;
    let ghost s0 = *slot;
    proof {
        assert(below(m, x, x, d));
        lemma_room_bound(x, m[x]);
        assert(node_at(buf@, slot.base + off, m[x], slot.nodes@));
        assert(buf@[slot.base + off + 0] == wire_word(m[x], slot.nodes@, 0));
        assert(buf@[slot.base + off + 1] == wire_word(m[x], slot.nodes@, 1));
        lemma_join_mask(m[x].mask);
        lemma_zero_mask(64);
        assert(minus_children(ids, m, x, 0, e) =~= ids);
    }
    let at: usize = slot.base + off as usize;
    let mask: u64 = read_mask(buf, at);
    assert(mask == m[x].mask);
    if mask != 0 && level < 3 {
        let n: u32 = count_ones(mask);
        let mut i: u32 = 0;
        while i < n
            invariant
                0 <= i <= n,
                n == m[x].children.len(),
                tree_wf(m),
                m.dom().contains(x),
                m[x].level == level,
                level < 3,
                d == 3 - level,
                e == 2 - level,
                at == s0.base + off,
                node_at(buf@, at as int, m[x], s0.nodes@),
                content_len(m[x]) == 3 + n,
                s0.base + s0.cap <= buf.len(),
                slot.base == s0.base,
                slot.cap == s0.cap,
                slot.nodes == s0.nodes,
                slot.tree == s0.tree,
                subtree_held(s0, buf@, m, x, d, ids),
                slot.arena_ok(minus_children(ids, m, x, i as int, e)),
                forall|w: int| #[trigger]
                    slot.free.has(w) <==> s0.free.has(w) || owned_by_children(
                        s0.nodes@,
                        m,
                        x,
                        i as int,
                        e,
                        w,
                    ),
            decreases n - i,
        {
            let ghost c = m[x].children[i as int];
            let ghost own = minus_children(ids, m, x, i as int, e);
            let ghost own1 = minus_children(ids, m, x, i + 1, e);
            proof {
                assert(buf@[at + (3 + i)] == wire_word(m[x], s0.nodes@, 3 + i));
                assert(is_child(m, x, i as int, c));
                assert forall|y: u32| #[trigger] below(m, c, y, e) implies own.contains(y)
                    && slot.nodes@[y as int].words == room(y, m[y]) && node_at(
                    buf@,
                    slot.base + slot.nodes@[y as int].off,
                    m[y],
                    slot.nodes@,
                ) by {
                    assert(below(m, x, y, d));
                    if exists|j: int|
                        0 <= j < i && is_child(m, x, j, #[trigger] m[x].children[j]) && below(
                            m,
                            m[x].children[j],
                            y,
                            e,
                        ) {
                        let j = choose|j: int|
                            0 <= j < i && is_child(m, x, j, #[trigger] m[x].children[j]) && below(
                                m,
                                m[x].children[j],
                                y,
                                e,
                            );
                        let cj = m[x].children[j];
                        assert(is_child(m, x, j, cj));
                        lemma_below_apart(m, c, cj, y, e);
                        assert(is_child(m, x, j, c));
                    }
                }
            }
            let ghost f0 = slot.free;
            let c_off: u32 = buf[at + NODE_FIXED_WORDS + i as usize];
            free_subtree(buf, slot, c_off, level + 1, Ghost(m), Ghost(c), Ghost(own));
            proof {
                let got = minus_below(own, m, c, e);
                assert(got =~= own1) by {
                    assert forall|y: u32| got.contains(y) <==> own1.contains(y) by {
                        assert(m[x].children[i as int] == c);
                        assert(is_child(m, x, i as int, m[x].children[i as int]));
                    }
                }
                assert forall|w: int| #[trigger]
                    slot.free.has(w) <==> s0.free.has(w) || owned_by_children(
                        s0.nodes@,
                        m,
                        x,
                        i + 1,
                        e,
                        w,
                    ) by {
                    assert(slot.free.has(w) <==> f0.has(w) || owned_below(s0.nodes@, m, c, e, w));
                    assert(m[x].children[i as int] == c);
                    assert(is_child(m, x, i as int, m[x].children[i as int]));
                }
            }
            i += 1;
        }
    }
}

/// Frees the words of a node and of everything below it, and no others.
pub fn free_subtree(
    buf: &Vec<u32>,
    slot: &mut ChunkSlot,
    off: u32,
    level: u8,
    Ghost(m): Ghost<TreeModel>,
    Ghost(x): Ghost<u32>,
    Ghost(ids): Ghost<Set<u32>>,
)
    requires
        tree_wf(m),
        m.dom().contains(x),
        m[x].level == level,
        1 <= level <= 3,
        old(slot).base + old(slot).cap <= buf.len(),
        old(slot).arena_ok(ids),
        subtree_held(*old(slot), buf@, m, x, (3 - level) as nat, ids),
        off == old(slot).nodes@[x as int].off,
    ensures
        final(slot).base == old(slot).base,
        final(slot).cap == old(slot).cap,
        final(slot).nodes == old(slot).nodes,
        final(slot).tree == old(slot).tree,
        final(slot).arena_ok(minus_below(ids, m, x, (3 - level) as nat)),
        forall|w: int| #[trigger]
            final(slot).free.has(w) <==> old(slot).free.has(w) || owned_below(
                old(slot).nodes@,
                m,
                x,
                (3 - level) as nat,
                w,
            ),
    decreases 2 * (3 - level) + 1,
{
    let ghost d = (3 - level) as nat;
    let ghost e = (2 - level) as nat;
    let ghost s0 = *slot;
    let ghost own = minus_children(ids, m, x, m[x].children.len() as int, e);
    proof {
        assert(below(m, x, x, d));
        lemma_room_bound(x, m[x]);
        assert(node_at(buf@, slot.base + off, m[x], slot.nodes@));
        assert(buf@[slot.base + off + 0] == wire_word(m[x], slot.nodes@, 0));
        assert(buf@[slot.base + off + 1] == wire_word(m[x], slot.nodes@, 1));
        lemma_join_mask(m[x].mask);
        lemma_zero_mask(64);
        assert(x != 0);
    }
    let mask: u64 = read_mask(buf, slot.base + off as usize);
    free_children(buf, slot, off, level, Ghost(m), Ghost(x), Ghost(ids));
    proof {
        assert(own.contains(x)) by {
            if exists|j: int|
                0 <= j < m[x].children.len() && is_child(m, x, j, #[trigger] m[x].children[j])
                    && below(m, m[x].children[j], x, e) {
                let j = choose|j: int|
                    0 <= j < m[x].children.len() && is_child(m, x, j, #[trigger] m[x].children[j])
                        && below(m, m[x].children[j], x, e);
                assert(is_child(m, x, j, m[x].children[j]));
                lemma_below_level(m, m[x].children[j], x, e);
            }
        }
    }
    let words: usize = wire_words_of(1, level, mask);
    let ghost f1 = slot.free;
    proof {
        assert(words == slot.nodes@[x as int].words);
        assert forall|w: int| off <= w < off + words implies !f1.has(w) by {
            assert(in_slot(slot.nodes@[x as int], w));
        }
    }
    slot.free.free_run(off as usize, words);
    proof {
        let rest = minus_below(ids, m, x, d);
        assert forall|y: u32| rest.contains(y) implies own.contains(y) && y != x by {
            if exists|j: int|
                0 <= j < m[x].children.len() && is_child(m, x, j, #[trigger] m[x].children[j])
                    && below(m, m[x].children[j], y, e) {
                if level == 3 {
                    assert(m[x].children.len() == 0);
                }
                assert(below(m, x, y, d));
            }
        }
        assert forall|id: u32, w: int|
            rest.contains(id) && #[trigger] in_slot(slot.nodes@[id as int], w) implies !#[trigger] slot.free.has(
            w) by {
            assert(own.contains(id));
            assert(own.contains(x));
            assert(apart(slot.nodes@[id as int], slot.nodes@[x as int]));
            assert(!f1.has(w));
        }
        assert forall|w: int| #[trigger]
            slot.free.has(w) <==> s0.free.has(w) || owned_below(s0.nodes@, m, x, d, w) by {
            assert(slot.free.has(w) <==> f1.has(w) || in_slot(s0.nodes@[x as int], w));
            if level == 3 {
                assert(m[x].children.len() == 0);
            }
            lemma_owned_below(s0.nodes@, m, x, d, w);
        }
        assert forall|w: int| #[trigger] slot.free.has(w) implies 0 <= w < slot.cap by {
            if !f1.has(w) {
                assert(own.contains(x));
            }
        }
    }
}

} // verus!
