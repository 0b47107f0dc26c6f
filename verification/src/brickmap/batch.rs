//! Why rewriting only the reported nodes turns a block into the new tree.
//!
//! An edit comes with the list of its changed nodes, deepest level first. While the list is worked
//! off, the block is partly the former tree and partly the new one; [`Batch::mid`] says exactly how.

use super::block::{below, lemma_below_level, minus_children, subtree_held, ChunkSlot};
use super::dirty::dirty_has;
use super::tree::{
    apart, content_len, holds_tree, is_child, lemma_room_bound, node_at, node_shape, room, tree_wf,
    wire_word, NodeSlot, TreeModel, NODE_NONE,
};
use vstd::prelude::*;

verus! {

/// Node `x` is among the first `k` entries of the list.
pub open spec fn seen(list: Seq<(u8, u32)>, k: int, x: u32) -> bool {
    exists|i: int| 0 <= i < k && (#[trigger] list[i]).1 == x
}

/// Node `x` is in the list.
pub open spec fn listed(list: Seq<(u8, u32)>, x: u32) -> bool {
    seen(list, list.len() as int, x)
}

/// What an edit report promises.
///
/// `t0` is the tree before the edit and `t1` the tree after it; `used` holds the ids that have had a
/// place in the block since it was installed.
pub open spec fn edit_ok(t0: TreeModel, used: Set<u32>, t1: TreeModel, list: Seq<(u8, u32)>) -> bool {
    // entries carry the level of their node
    &&& forall|i: int|
        0 <= i < list.len() && t1.dom().contains((#[trigger] list[i]).1) ==> list[i].0
            == t1[list[i].1].level
    // deepest level first
    &&& forall|i: int, j: int| 0 <= i < j < list.len() ==> (#[trigger] list[i]).0 >= (#[trigger] list[j]).0
    // every new or changed node is reported
    &&& forall|x: u32| #[trigger]
        t1.dom().contains(x) && (!t0.dom().contains(x) || t0[x] != t1[x]) ==> listed(list, x)
    // with a node, its parent is reported
    &&& forall|p: u32, j: int, c: u32| #[trigger] is_child(t1, p, j, c) && listed(list, c) ==> listed(
        list,
        p,
    )
    // new nodes have fresh ids
    &&& forall|x: u32| #[trigger] t1.dom().contains(x) && !t0.dom().contains(x) ==> !used.contains(x)
    // a node keeps its level
    &&& forall|x: u32| #[trigger]
        t1.dom().contains(x) && t0.dom().contains(x) ==> t0[x].level == t1[x].level
    // what was below a node that is gone or has become uniform is gone too
    &&& forall|p: u32, j: int, c: u32| #[trigger]
        is_child(t0, p, j, c) && (!t1.dom().contains(p) || t1[p].mask == 0) ==> !t1.dom().contains(c)
}

/// The words of slot `t` read alike in `b` (block at `base`) and `b2` (block at `base2`).
pub open spec fn kept(b2: Seq<u32>, base2: int, b: Seq<u32>, base: int, t: NodeSlot) -> bool {
    forall|i: int| 0 <= i < t.words ==> #[trigger] b2[base2 + t.off + i] == b[base + t.off + i]
}

/// Where an edit starts from and what it leads to.
pub struct Batch {
    pub b0: Seq<u32>,
    pub base0: int,
    pub slots0: Seq<NodeSlot>,
    pub t0: TreeModel,
    pub t1: TreeModel,
    pub list: Seq<(u8, u32)>,
}

/// Ids with a place in the block.
pub open spec fn used_ids(slots: Seq<NodeSlot>) -> Set<u32> {
    Set::new(|x: u32| x < slots.len() && slots[x as int].off != NODE_NONE)
}

impl Batch {
    pub open spec fn seen(&self, k: int, x: u32) -> bool {
        seen(self.list, k, x)
    }

    /// Node `x` stands in the block as the new tree has it once `k` entries are worked off.
    pub open spec fn done(&self, k: int, x: u32) -> bool {
        seen(self.list, k, x) || !listed(self.list, x)
    }

    pub open spec fn ok(&self) -> bool {
        &&& tree_wf(self.t0)
        &&& tree_wf(self.t1)
        &&& edit_ok(self.t0, used_ids(self.slots0), self.t1, self.list)
    }

    /// A word of node `x` either is reported or reads as before the edit.
    pub open spec fn word_new(
        &self,
        b: Seq<u32>,
        d: Seq<(usize, usize)>,
        s: ChunkSlot,
        x: u32,
        w: int,
    ) -> bool {
        dirty_has(d, w) || (s.base == self.base0 && self.t0.dom().contains(x) && s.nodes@[x as int].off
            == self.slots0[x as int].off && w < s.base + s.nodes@[x as int].off + content_len(
            self.t0[x],
        ) && b[w] == self.b0[w])
    }

    pub open spec fn word_old(&self, b: Seq<u32>, d: Seq<(usize, usize)>, s: ChunkSlot, w: int) -> bool {
        dirty_has(d, w) || (s.base == self.base0 && b[w] == self.b0[w])
    }

    /// Node `x` is done: it stands as the new tree has it.
    pub open spec fn new_node(
        &self,
        b: Seq<u32>,
        d: Seq<(usize, usize)>,
        s: ChunkSlot,
        own: Set<u32>,
        x: u32,
    ) -> bool {
        &&& own.contains(x)
        &&& s.nodes@[x as int].words == room(x, self.t1[x])
        &&& node_at(b, s.base + s.nodes@[x as int].off, self.t1[x], s.nodes@)
        &&& forall|w: int|
            s.base + s.nodes@[x as int].off <= w < s.base + s.nodes@[x as int].off + content_len(
                self.t1[x],
            ) ==> #[trigger] self.word_new(b, d, s, x, w)
    }

    /// Node `x` is not worked off yet: it stands as the former tree has it.
    pub open spec fn old_node(
        &self,
        b: Seq<u32>,
        d: Seq<(usize, usize)>,
        s: ChunkSlot,
        x: u32,
    ) -> bool {
        &&& x < self.slots0.len()
        &&& s.nodes@[x as int] == self.slots0[x as int]
        &&& s.nodes@[x as int].words == room(x, self.t0[x])
        &&& node_at(b, s.base + s.nodes@[x as int].off, self.t0[x], self.slots0)
        &&& forall|w: int|
            s.base + s.nodes@[x as int].off <= w < s.base + s.nodes@[x as int].off + content_len(
                self.t0[x],
            ) ==> #[trigger] self.word_old(b, d, s, w)
    }

    /// The block once `k` entries are worked off; `own` are the nodes that own words.
    pub open spec fn mid(
        &self,
        k: int,
        b: Seq<u32>,
        d: Seq<(usize, usize)>,
        s: ChunkSlot,
        own: Set<u32>,
    ) -> bool {
        &&& 0 <= k <= self.list.len()
        &&& forall|i: int| 0 <= i < k ==> self.t1.dom().contains((#[trigger] self.list[i]).1)
        &&& 67 <= s.cap
        &&& s.base + s.cap <= b.len()
        &&& s.arena_ok(own)
        &&& own.contains(0)
        &&& s.nodes@[0].off == 0
        &&& self.slots0.len() <= s.nodes@.len()
        &&& forall|x: u32| #[trigger] self.t1.dom().contains(x) ==> x < s.nodes@.len()
        &&& forall|x: u32| #[trigger]
            self.t1.dom().contains(x) && self.done(k, x) ==> self.new_node(b, d, s, own, x)
        &&& forall|x: u32| #[trigger]
            self.t0.dom().contains(x) && !self.seen(k, x) && own.contains(x) ==> self.old_node(
                b,
                d,
                s,
                x,
            )
        &&& forall|x: u32| #[trigger]
            self.t0.dom().contains(x) && self.t1.dom().contains(x) ==> own.contains(x)
        &&& forall|p: u32, j: int, c: u32| #[trigger]
            is_child(self.t0, p, j, c) && !own.contains(c) ==> !own.contains(p) || (self.seen(k, p)
                && self.t1[p].mask == 0)
        &&& forall|x: u32| #[trigger]
            self.t1.dom().contains(x) && !self.t0.dom().contains(x) && !self.seen(k, x)
                ==> s.nodes@[x as int].off == NODE_NONE && !own.contains(x)
    }

    /// Children of a done node are done: their places are final.
    pub proof fn lemma_children_done(&self, k: int, p: u32, j: int, c: u32)
        requires
            self.ok(),
            0 <= k <= self.list.len(),
            forall|i: int| 0 <= i < k ==> self.t1.dom().contains((#[trigger] self.list[i]).1),
            self.done(k, p),
            is_child(self.t1, p, j, c),
        ensures
            self.done(k, c),
    {
        if listed(self.list, c) {
            assert(listed(self.list, p));
            let i = choose|i: int| 0 <= i < k && (#[trigger] self.list[i]).1 == p;
            let q = choose|q: int| 0 <= q < self.list.len() && (#[trigger] self.list[q]).1 == c;
            assert(self.list[q].0 == self.t1[c].level);
            assert(self.list[i].0 == self.t1[p].level);
            if q >= i {
                if q > i {
                    assert(self.list[i].0 >= self.list[q].0);
                }
            }
            assert(self.list[q].1 == c);
        }
    }

    /// The block before the first entry.
    pub proof fn lemma_start(&self, b: Seq<u32>, d: Seq<(usize, usize)>, s: ChunkSlot)
        requires
            self.ok(),
            s.tree@ == self.t0,
            self.b0 == b,
            self.base0 == s.base,
            self.slots0.len() <= s.nodes@.len(),
            forall|i: int|
                0 <= i < self.slots0.len() ==> #[trigger] s.nodes@[i] == self.slots0[i],
            forall|i: int|
                self.slots0.len() <= i < s.nodes@.len() ==> (#[trigger] s.nodes@[i]).off == NODE_NONE,
            forall|x: u32| #[trigger] self.t0.dom().contains(x) ==> x < self.slots0.len(),
            forall|x: u32| #[trigger] self.t1.dom().contains(x) ==> x < s.nodes@.len(),
            s.block_ok(b),
        ensures
            self.mid(0, b, d, s, self.t0.dom()),
    {
        let own = self.t0.dom();
        assert forall|x: u32| #[trigger] self.t0.dom().contains(x) implies self.old_node(b, d, s, x) by {
            lemma_room_bound(x, self.t0[x]);
            let at = s.base + s.nodes@[x as int].off;
            assert(node_at(b, at, self.t0[x], s.nodes@));
            assert forall|k: int| 0 <= k < content_len(self.t0[x]) implies #[trigger] b[at + k]
                == wire_word(self.t0[x], self.slots0, k) by {
                assert(b[at + k] == wire_word(self.t0[x], s.nodes@, k));
                if k >= 3 && self.t0[x].level < 3 {
                    assert(is_child(self.t0, x, k - 3, self.t0[x].children[k - 3]));
                }
            }
        }
        assert forall|x: u32| #[trigger] self.t1.dom().contains(x) && self.done(0, x) implies self.new_node(
            b,
            d,
            s,
            own,
            x,
        ) by {
            assert(!listed(self.list, x));
            assert(self.t0.dom().contains(x) && self.t0[x] == self.t1[x]);
            assert(self.old_node(b, d, s, x));
            assert(node_at(b, s.base + s.nodes@[x as int].off, self.t0[x], s.nodes@));
        }
        assert forall|x: u32| #[trigger]
            self.t1.dom().contains(x) && !self.t0.dom().contains(x) && !self.seen(0, x) implies s.nodes@[x as int].off
            == NODE_NONE && !own.contains(x) by {
            if x < self.slots0.len() {
                assert(!used_ids(self.slots0).contains(x));
            }
        }
    }

    /// The block after the last entry holds the new tree.
    pub proof fn lemma_end(&self, b: Seq<u32>, d: Seq<(usize, usize)>, s: ChunkSlot, own: Set<u32>)
        requires
            self.ok(),
            self.mid(self.list.len() as int, b, d, s, own),
        ensures
            s.arena_ok(self.t1.dom()),
            holds_tree(b, s.base as int, s.nodes@, self.t1),
    {
        let n = self.list.len() as int;
        assert forall|x: u32| #[trigger] self.t1.dom().contains(x) implies own.contains(x)
            && self.new_node(b, d, s, own, x) by {
            assert(self.done(n, x));
        }
    }

    /// What hangs below a vanished node has vanished.
    pub proof fn lemma_dead_below(&self, c: u32, y: u32, d: nat)
        requires
            self.ok(),
            self.t0.dom().contains(c),
            !self.t1.dom().contains(c),
            below(self.t0, c, y, d),
        ensures
            !self.t1.dom().contains(y),
            self.t0.dom().contains(y),
        decreases d,
    {
        if c != y {
            let j = choose|j: int|
                is_child(self.t0, c, j, #[trigger] self.t0[c].children[j]) && below(
                    self.t0,
                    self.t0[c].children[j],
                    y,
                    (d - 1) as nat,
                );
            let e = self.t0[c].children[j];
            assert(is_child(self.t0, c, j, e));
            self.lemma_dead_below(e, y, (d - 1) as nat);
        }
    }

    /// What hangs below an unseen, still held node that has vanished is still held.
    pub proof fn lemma_dead_held(
        &self,
        k: int,
        b: Seq<u32>,
        dl: Seq<(usize, usize)>,
        s: ChunkSlot,
        own: Set<u32>,
        c: u32,
        y: u32,
        d: nat,
    )
        requires
            self.ok(),
            self.mid(k, b, dl, s, own),
            self.t0.dom().contains(c),
            !self.t1.dom().contains(c),
            own.contains(c),
            below(self.t0, c, y, d),
        ensures
            own.contains(y),
            !self.seen(k, y),
            !self.t1.dom().contains(y),
            self.t0.dom().contains(y),
        decreases d,
    {
        self.lemma_dead_below(c, y, d);
        if c != y {
            let j = choose|j: int|
                is_child(self.t0, c, j, #[trigger] self.t0[c].children[j]) && below(
                    self.t0,
                    self.t0[c].children[j],
                    y,
                    (d - 1) as nat,
                );
            let e = self.t0[c].children[j];
            assert(is_child(self.t0, c, j, e));
            assert(!self.seen(k, c));
            self.lemma_dead_held(k, b, dl, s, own, e, y, (d - 1) as nat);
        }
    }

    /// The ids that own words after entry `k` has freed what hung below its node.
    pub open spec fn after_free(&self, k: int, own: Set<u32>) -> Set<u32> {
        let id = self.list[k].1;
        if self.t0.dom().contains(id) && self.t0[id].level < 3 && self.t1[id].mask == 0 {
            minus_children(
                own,
                self.t0,
                id,
                self.t0[id].children.len() as int,
                (2 - self.t0[id].level) as nat,
            )
        } else {
            own
        }
    }

    /// Freeing removes only vanished nodes.
    pub proof fn lemma_after_free(&self, k: int, own: Set<u32>, x: u32)
        requires
            self.ok(),
            0 <= k < self.list.len(),
            self.t1.dom().contains(self.list[k].1),
            own.contains(x),
            self.t1.dom().contains(x) || x == 0,
        ensures
            self.after_free(k, own).contains(x),
    {
        let id = self.list[k].1;
        if !self.after_free(k, own).contains(x) {
            let e = (2 - self.t0[id].level) as nat;
            let j = choose|j: int|
                0 <= j < self.t0[id].children.len() && is_child(
                    self.t0,
                    id,
                    j,
                    #[trigger] self.t0[id].children[j],
                ) && below(self.t0, self.t0[id].children[j], x, e);
            let c = self.t0[id].children[j];
            assert(is_child(self.t0, id, j, c));
            self.lemma_dead_below(c, x, e);
            lemma_below_level(self.t0, c, x, e);
        }
    }

    /// An entry whose node was worked off before changes nothing.
    pub proof fn lemma_again(
        &self,
        k: int,
        b: Seq<u32>,
        d: Seq<(usize, usize)>,
        s: ChunkSlot,
        own: Set<u32>,
        s2: ChunkSlot,
    )
        requires
            self.ok(),
            k < self.list.len(),
            self.mid(k, b, d, s, own),
            self.t1.dom().contains(self.list[k].1),
            self.seen(k, self.list[k].1),
            s2.base == s.base,
            s2.cap == s.cap,
            s2.nodes@ == s.nodes@,
            s2.arena_ok(own),
        ensures
            self.mid(k + 1, b, d, s2, own),
    {
        assert forall|x: u32| self.seen(k + 1, x) <==> self.seen(k, x) by {
            if self.seen(k + 1, x) {
                let i = choose|i: int| 0 <= i < k + 1 && (#[trigger] self.list[i]).1 == x;
                if i < k {
                    assert(self.list[i].1 == x);
                }
            }
            if self.seen(k, x) {
                let i = choose|i: int| 0 <= i < k && (#[trigger] self.list[i]).1 == x;
                assert(self.list[i].1 == x);
            }
        }
        assert forall|x: u32| #[trigger] self.t1.dom().contains(x) && self.done(k + 1, x) implies self.new_node(
            b,
            d,
            s2,
            own,
            x,
        ) by {
            assert(self.done(k, x));
            assert(self.new_node(b, d, s, own, x));
            assert forall|w: int|
                s2.base + s2.nodes@[x as int].off <= w < s2.base + s2.nodes@[x as int].off + content_len(
                    self.t1[x],
                ) implies #[trigger] self.word_new(b, d, s2, x, w) by {
                assert(self.word_new(b, d, s, x, w));
            }
        }
        assert forall|x: u32| #[trigger]
            self.t0.dom().contains(x) && !self.seen(k + 1, x) && own.contains(x) implies self.old_node(
            b,
            d,
            s2,
            x,
        ) by {
            assert(self.old_node(b, d, s, x));
            assert forall|w: int|
                s2.base + s2.nodes@[x as int].off <= w < s2.base + s2.nodes@[x as int].off + content_len(
                    self.t0[x],
                ) implies #[trigger] self.word_old(b, d, s2, w) by {
                assert(self.word_old(b, d, s, w));
            }
        }
    }

    /// What hangs below node `x` at entry `k`, and is about to be freed, is held as the former tree
    /// has it.
    pub proof fn lemma_freed_held(
        &self,
        k: int,
        b: Seq<u32>,
        d: Seq<(usize, usize)>,
        s: ChunkSlot,
        own: Set<u32>,
    )
        requires
            self.ok(),
            k < self.list.len(),
            self.mid(k, b, d, s, own),
            self.t1.dom().contains(self.list[k].1),
            self.t0.dom().contains(self.list[k].1),
            !self.seen(k, self.list[k].1),
            self.t1[self.list[k].1].mask == 0,
        ensures
            subtree_held(
                s,
                b,
                self.t0,
                self.list[k].1,
                (3 - self.t0[self.list[k].1].level) as nat,
                own,
            ),
    {
        let id = self.list[k].1;
        let dd = (3 - self.t0[id].level) as nat;
        assert forall|y: u32| #[trigger] below(self.t0, id, y, dd) implies own.contains(y)
            && self.t0.dom().contains(y) && !self.seen(k, y) by {
            if y != id {
                let j = choose|j: int|
                    is_child(self.t0, id, j, #[trigger] self.t0[id].children[j]) && below(
                        self.t0,
                        self.t0[id].children[j],
                        y,
                        (dd - 1) as nat,
                    );
                let c = self.t0[id].children[j];
                assert(is_child(self.t0, id, j, c));
                assert(!self.t1.dom().contains(c));
                assert(own.contains(c));
                self.lemma_dead_held(k, b, d, s, own, c, y, (dd - 1) as nat);
            }
        }
        assert forall|y: u32| #[trigger] below(self.t0, id, y, dd) implies own.contains(y)
            && s.nodes@[y as int].words == room(y, self.t0[y]) && node_at(
            b,
            s.base + s.nodes@[y as int].off,
            self.t0[y],
            s.nodes@,
        ) by {
            assert(self.old_node(b, d, s, y));
            let at = s.base + s.nodes@[y as int].off;
            assert forall|i: int| 0 <= i < content_len(self.t0[y]) implies #[trigger] b[at + i]
                == wire_word(self.t0[y], s.nodes@, i) by {
                assert(b[at + i] == wire_word(self.t0[y], self.slots0, i));
                if i >= 3 && self.t0[y].level < 3 {
                    let c = self.t0[y].children[i - 3];
                    assert(is_child(self.t0, y, i - 3, c));
                    self.lemma_child_below(id, y, i - 3, c, dd);
                    assert(below(self.t0, id, c, dd));
                    assert(own.contains(c));
                    assert(self.old_node(b, d, s, c));
                }
            }
        }
    }

    /// A child of a node below `x` is below `x`, as long as the depth covers the whole tree.
    proof fn lemma_child_below(&self, x: u32, y: u32, j: int, c: u32, d: nat)
        requires
            self.ok(),
            self.t0.dom().contains(x),
            below(self.t0, x, y, d),
            is_child(self.t0, y, j, c),
            d >= 3 - self.t0[x].level,
        ensures
            below(self.t0, x, c, d),
        decreases d,
    {
        assert(node_shape(self.t0[c]));
        if x == y {
            assert(is_child(self.t0, x, j, self.t0[x].children[j]));
            assert(below(self.t0, c, c, (d - 1) as nat));
        } else {
            let i = choose|i: int|
                is_child(self.t0, x, i, #[trigger] self.t0[x].children[i]) && below(
                    self.t0,
                    self.t0[x].children[i],
                    y,
                    (d - 1) as nat,
                );
            let e = self.t0[x].children[i];
            assert(is_child(self.t0, x, i, e));
            self.lemma_child_below(e, y, j, c, (d - 1) as nat);
        }
    }

    /// One entry worked off: `b2`, `d2`, `s2` are the block after its node got its place, `b3`, `d3`
    /// after the node's content was written.
    pub proof fn lemma_step(
        &self,
        k: int,
        b: Seq<u32>,
        d: Seq<(usize, usize)>,
        s: ChunkSlot,
        own: Set<u32>,
        b2: Seq<u32>,
        d2: Seq<(usize, usize)>,
        s2: ChunkSlot,
        b3: Seq<u32>,
        d3: Seq<(usize, usize)>,
        written: bool,
    )
        requires
            self.ok(),
            k < self.list.len(),
            self.mid(k, b, d, s, own),
            self.t1.dom().contains(self.list[k].1),
            !self.seen(k, self.list[k].1),
            ({
                let id = self.list[k].1;
                let n = self.t1[id];
                let at = s2.base + s2.nodes@[id as int].off;
                &&& s2.nodes@.len() == s.nodes@.len()
                &&& forall|i: int|
                    0 <= i < s.nodes@.len() && i != id ==> #[trigger] s2.nodes@[i] == s.nodes@[i]
                &&& s2.nodes@[id as int].words == room(id, n)
                &&& s2.arena_ok(self.after_free(k, own).insert(id))
                &&& s2.cap >= s.cap
                &&& s2.base + s2.cap <= b2.len()
                &&& forall|w: int| 0 <= w < s.cap ==> #[trigger] b2[s2.base + w] == b[s.base + w]
                &&& forall|w: int| dirty_has(d, w) ==> #[trigger] dirty_has(d2, w)
                &&& s2.base != s.base ==> forall|w: int|
                    s2.base <= w < s2.base + s.cap ==> #[trigger] dirty_has(d2, w)
                &&& id == 0 ==> s2.nodes@[0].off == 0
                &&& b3.len() == b2.len()
                &&& forall|w: int|
                    0 <= w < b2.len() && !(at <= w < at + content_len(n)) ==> #[trigger] b3[w] == b2[w]
                &&& forall|i: int|
                    0 <= i < content_len(n) ==> #[trigger] b3[at + i] == wire_word(n, s.nodes@, i)
                &&& forall|w: int| dirty_has(d2, w) ==> #[trigger] dirty_has(d3, w)
                &&& written ==> forall|w: int|
                    at <= w < at + content_len(n) ==> #[trigger] dirty_has(d3, w)
                &&& !written ==> s2.nodes@[id as int].off == s.nodes@[id as int].off && b3 == b2
            }),
        ensures
            self.mid(k + 1, b3, d3, s2, self.after_free(k, own).insert(self.list[k].1)),
    {
        let id = self.list[k].1;
        let n = self.t1[id];
        let own1 = self.after_free(k, own);
        let own2 = own1.insert(id);
        let at = s2.base + s2.nodes@[id as int].off;
        lemma_room_bound(id, n);
        assert forall|x: u32| self.seen(k + 1, x) <==> self.seen(k, x) || x == id by {
            if self.seen(k + 1, x) {
                let i = choose|i: int| 0 <= i < k + 1 && (#[trigger] self.list[i]).1 == x;
                if i < k {
                    assert(self.list[i].1 == x);
                }
            }
            if self.seen(k, x) {
                let i = choose|i: int| 0 <= i < k && (#[trigger] self.list[i]).1 == x;
                assert(self.list[i].1 == x);
            }
            if x == id {
                assert(self.list[k].1 == x);
            }
        }
        assert(listed(self.list, id));
        // words of other owners stay as they are
        assert forall|x: u32| #[trigger] own1.contains(x) && x != id implies kept(
            b3,
            s2.base as int,
            b,
            s.base as int,
            s.nodes@[x as int],
        ) by {
            assert(own2.contains(x) && own2.contains(id));
            assert(apart(s2.nodes@[x as int], s2.nodes@[id as int]));
            assert(own.contains(x));
            let t = s.nodes@[x as int];
            assert forall|i: int| 0 <= i < t.words implies #[trigger] b3[s2.base + t.off + i]
                == b[s.base + t.off + i] by {
                let w = t.off + i;
                assert(b2[s2.base + w] == b[s.base + w]);
                assert(b3[s2.base + w] == b2[s2.base + w]);
            }
        }
        assert forall|x: u32| #[trigger] self.t1.dom().contains(x) && self.done(k + 1, x) implies self.new_node(
            b3,
            d3,
            s2,
            own2,
            x,
        ) by {
            if x != id {
                assert(self.done(k, x));
                assert(self.new_node(b, d, s, own, x));
                self.lemma_after_free(k, own, x);
                self.lemma_step_other(k, b, d, s, own, s2, b3, d3, x);
            } else {
                self.lemma_step_self(k, b, d, s, own, b2, d2, s2, b3, d3, written);
            }
        }
        assert forall|x: u32| #[trigger]
            self.t0.dom().contains(x) && !self.seen(k + 1, x) && own2.contains(x) implies self.old_node(
            b3,
            d3,
            s2,
            x,
        ) by {
            assert(x != id && own1.contains(x) && own.contains(x));
            assert(self.old_node(b, d, s, x));
            lemma_room_bound(x, self.t0[x]);
            let a = s.base + s.nodes@[x as int].off;
            let a2 = s2.base + s2.nodes@[x as int].off;
            assert forall|i: int| 0 <= i < content_len(self.t0[x]) implies #[trigger] b3[a2 + i]
                == wire_word(self.t0[x], self.slots0, i) by {
                assert(b3[s2.base + s.nodes@[x as int].off + i] == b[a + i]);
                assert(b[a + i] == wire_word(self.t0[x], self.slots0, i));
            }
            assert forall|w: int| a2 <= w < a2 + content_len(self.t0[x]) implies #[trigger] self.word_old(
                b3,
                d3,
                s2,
                w,
            ) by {
                let i = w - a2;
                assert(self.word_old(b, d, s, a + i));
                assert(b3[s2.base + s.nodes@[x as int].off + i] == b[a + i]);
                if s2.base != s.base {
                    assert(dirty_has(d2, w));
                    assert(dirty_has(d3, w));
                } else if dirty_has(d, a + i) {
                    assert(dirty_has(d2, w));
                    assert(dirty_has(d3, w));
                }
            }
        }
        assert forall|x: u32| #[trigger]
            self.t0.dom().contains(x) && self.t1.dom().contains(x) implies own2.contains(x) by {
            if x != id {
                self.lemma_after_free(k, own, x);
            }
        }
        assert forall|p: u32, j: int, c: u32| #[trigger]
            is_child(self.t0, p, j, c) && !own2.contains(c) implies !own2.contains(p) || (self.seen(
            k + 1,
            p,
        ) && self.t1[p].mask == 0) by {
            if !own.contains(c) {
                if p == id {
                    assert(own.contains(id));
                }
            } else {
                assert(!own1.contains(c));
                let e = (2 - self.t0[id].level) as nat;
                let i = choose|i: int|
                    0 <= i < self.t0[id].children.len() && is_child(
                        self.t0,
                        id,
                        i,
                        #[trigger] self.t0[id].children[i],
                    ) && below(self.t0, self.t0[id].children[i], c, e);
                let ci = self.t0[id].children[i];
                assert(is_child(self.t0, id, i, ci));
                if c == ci {
                    assert(is_child(self.t0, id, i, c));
                    assert(p == id);
                } else {
                    lemma_parent_below(self.t0, ci, c, p, j, e);
                    lemma_below_level(self.t0, ci, p, e);
                    assert(p != id);
                    assert(!own1.contains(p));
                }
            }
        }
        if id != 0 {
            self.lemma_after_free(k, own, 0);
        }
    }

    proof fn lemma_step_other(
        &self,
        k: int,
        b: Seq<u32>,
        d: Seq<(usize, usize)>,
        s: ChunkSlot,
        own: Set<u32>,
        s2: ChunkSlot,
        b3: Seq<u32>,
        d3: Seq<(usize, usize)>,
        x: u32,
    )
        requires
            self.ok(),
            0 <= k < self.list.len(),
            forall|i: int| 0 <= i < k ==> self.t1.dom().contains((#[trigger] self.list[i]).1),
            self.t1.dom().contains(x),
            self.done(k, x),
            x != self.list[k].1,
            !self.seen(k, self.list[k].1),
            self.new_node(b, d, s, own, x),
            self.after_free(k, own).contains(x),
            s2.nodes@.len() == s.nodes@.len(),
            forall|y: u32| #[trigger] self.t1.dom().contains(y) ==> y < s.nodes@.len(),
            forall|i: int|
                0 <= i < s.nodes@.len() && i != self.list[k].1 ==> #[trigger] s2.nodes@[i] == s.nodes@[i],
            s2.arena_ok(self.after_free(k, own).insert(self.list[k].1)),
            s2.base + s2.cap <= b3.len(),
            s.nodes@[x as int].off + s.nodes@[x as int].words <= s.cap,
            kept(b3, s2.base as int, b, s.base as int, s.nodes@[x as int]),
            forall|w: int| dirty_has(d, w) ==> #[trigger] dirty_has(d3, w),
            s2.base != s.base ==> forall|w: int|
                s2.base <= w < s2.base + s.cap ==> #[trigger] dirty_has(d3, w),
        ensures
            self.new_node(b3, d3, s2, self.after_free(k, own).insert(self.list[k].1), x),
    {
        let id = self.list[k].1;
        let n = self.t1[x];
        lemma_room_bound(x, n);
        assert(listed(self.list, id)) by {
            assert(self.list[k].1 == id);
        }
        assert(self.after_free(k, own).insert(id).contains(x));
        let a = s.base + s.nodes@[x as int].off;
        let a2 = s2.base + s2.nodes@[x as int].off;
        assert forall|i: int| 0 <= i < content_len(n) implies #[trigger] b3[a2 + i] == wire_word(
            n,
            s2.nodes@,
            i,
        ) by {
            assert(b3[s2.base + s.nodes@[x as int].off + i] == b[a + i]);
            assert(b[a + i] == wire_word(n, s.nodes@, i));
            if i >= 3 && n.level < 3 {
                let c = n.children[i - 3];
                assert(is_child(self.t1, x, i - 3, c));
                self.lemma_children_done(k, x, i - 3, c);
                assert(c != id);
            }
        }
        assert forall|w: int| a2 <= w < a2 + content_len(n) implies #[trigger] self.word_new(
            b3,
            d3,
            s2,
            x,
            w,
        ) by {
            let i = w - a2;
            assert(self.word_new(b, d, s, x, a + i));
            assert(b3[s2.base + s.nodes@[x as int].off + i] == b[a + i]);
            if s2.base != s.base {
                assert(dirty_has(d3, w));
            } else if dirty_has(d, a + i) {
                assert(dirty_has(d3, w));
            }
        }
    }

    proof fn lemma_step_self(
        &self,
        k: int,
        b: Seq<u32>,
        d: Seq<(usize, usize)>,
        s: ChunkSlot,
        own: Set<u32>,
        b2: Seq<u32>,
        d2: Seq<(usize, usize)>,
        s2: ChunkSlot,
        b3: Seq<u32>,
        d3: Seq<(usize, usize)>,
        written: bool,
    )
        requires
            self.ok(),
            0 <= k < self.list.len(),
            self.mid(k, b, d, s, own),
            self.t1.dom().contains(self.list[k].1),
            !self.seen(k, self.list[k].1),
            ({
                let id = self.list[k].1;
                let n = self.t1[id];
                let at = s2.base + s2.nodes@[id as int].off;
                &&& s2.nodes@.len() == s.nodes@.len()
                &&& forall|i: int|
                    0 <= i < s.nodes@.len() && i != id ==> #[trigger] s2.nodes@[i] == s.nodes@[i]
                &&& s2.nodes@[id as int].words == room(id, n)
                &&& s2.arena_ok(self.after_free(k, own).insert(id))
                &&& s2.base + s2.cap <= b3.len()
                &&& forall|w: int| 0 <= w < s.cap ==> #[trigger] b2[s2.base + w] == b[s.base + w]
                &&& forall|w: int| dirty_has(d, w) ==> #[trigger] dirty_has(d2, w)
                &&& s2.base != s.base ==> forall|w: int|
                    s2.base <= w < s2.base + s.cap ==> #[trigger] dirty_has(d2, w)
                &&& forall|i: int|
                    0 <= i < content_len(n) ==> #[trigger] b3[at + i] == wire_word(n, s.nodes@, i)
                &&& forall|w: int| dirty_has(d2, w) ==> #[trigger] dirty_has(d3, w)
                &&& written ==> forall|w: int|
                    at <= w < at + content_len(n) ==> #[trigger] dirty_has(d3, w)
                &&& !written ==> s2.nodes@[id as int].off == s.nodes@[id as int].off && b3 == b2
            }),
        ensures
            self.new_node(
                b3,
                d3,
                s2,
                self.after_free(k, own).insert(self.list[k].1),
                self.list[k].1,
            ),
    {
        let id = self.list[k].1;
        let n = self.t1[id];
        let at = s2.base + s2.nodes@[id as int].off;
        let own2 = self.after_free(k, own).insert(id);
        lemma_room_bound(id, n);
        assert(own2.contains(id));
        assert forall|i: int| 0 <= i < content_len(n) implies #[trigger] b3[at + i] == wire_word(
            n,
            s2.nodes@,
            i,
        ) by {
            assert(b3[at + i] == wire_word(n, s.nodes@, i));
            if i >= 3 && n.level < 3 {
                let c = n.children[i - 3];
                assert(is_child(self.t1, id, i - 3, c));
                assert(c != id);
            }
        }
        if !written {
            assert(s2.nodes@[id as int].off != NODE_NONE);
            assert(self.t0.dom().contains(id));
            assert(self.old_node(b, d, s, id));
            let m = self.t0[id];
            lemma_room_bound(id, m);
            let a = s.base + s.nodes@[id as int].off;
            let o = s.nodes@[id as int].off as int;
            assert(own.contains(id));
            assert forall|i: int| 0 <= i < s.nodes@[id as int].words implies #[trigger] b3[at + i]
                == b[a + i] by {
                assert(b2[s2.base + (o + i)] == b[s.base + (o + i)]);
            }
            assert(b3[at + 0] == wire_word(n, s.nodes@, 0));
            assert(b3[at + 1] == wire_word(n, s.nodes@, 1));
            assert(b[a + 0] == wire_word(m, self.slots0, 0));
            assert(b[a + 1] == wire_word(m, self.slots0, 1));
            assert(b3[at + 0] == b[a + 0] && b3[at + 1] == b[a + 1]);
            crate::bits::lemma_join_mask(n.mask);
            crate::bits::lemma_join_mask(m.mask);
            assert(n.mask == m.mask);
            assert(content_len(n) == content_len(m));
            assert forall|w: int| at <= w < at + content_len(n) implies #[trigger] self.word_new(
                b3,
                d3,
                s2,
                id,
                w,
            ) by {
                let i = w - at;
                assert(self.word_old(b, d, s, a + i));
                assert(b3[at + i] == b[a + i]);
                if s2.base != s.base {
                    assert(dirty_has(d2, w));
                    assert(dirty_has(d3, w));
                } else if dirty_has(d, a + i) {
                    assert(dirty_has(d2, w));
                    assert(dirty_has(d3, w));
                }
            }
        } else {
            assert forall|w: int| at <= w < at + content_len(n) implies #[trigger] self.word_new(
                b3,
                d3,
                s2,
                id,
                w,
            ) by {
                assert(dirty_has(d3, w));
            }
        }
    }
}

/// The parent of a node strictly below `c` is at or below `c`.
pub proof fn lemma_parent_below(m: TreeModel, c: u32, y: u32, q: u32, j: int, d: nat)
    requires
        tree_wf(m),
        m.dom().contains(c),
        below(m, c, y, d),
        y != c,
        is_child(m, q, j, y),
    ensures
        below(m, c, q, d),
    decreases d,
{
    let i = choose|i: int|
        is_child(m, c, i, #[trigger] m[c].children[i]) && below(
            m,
            m[c].children[i],
            y,
            (d - 1) as nat,
        );
    let e = m[c].children[i];
    assert(is_child(m, c, i, e));
    if e == y {
        assert(is_child(m, c, i, y));
        assert(q == c);
    } else {
        lemma_parent_below(m, e, y, q, j, (d - 1) as nat);
        assert(is_child(m, c, i, m[c].children[i]) && below(m, m[c].children[i], q, (d - 1) as nat));
    }
}

} // verus!
