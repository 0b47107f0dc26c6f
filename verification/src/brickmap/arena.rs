//! Where the nodes of a block stand after an edit.
//!
//! A node that needs no more words than it has stays, and gives the rest back. One that needs more
//! stays where the words behind it are free; else it moves to the first free piece of its block that
//! is large enough. A block without such a piece moves first, to the first free segment of the tree
//! region that has room for a larger one, or to the end of the words.

use super::block::owned_by_children;
use super::builder::grown;
use super::free_runs::FreeRuns;
use super::tree::{room, NodeSlot, TreeModel, NODE_NONE};
use vstd::prelude::*;

verus! {

/// A block with the tree region around it, as far as places go.
pub struct Arena {
    /// First word of the block.
    pub base: int,
    /// Words of the block.
    pub cap: int,
    /// Places of the nodes, by id.
    pub slots: Seq<NodeSlot>,
    /// Free words of the block, relative to its first word.
    pub free: Set<int>,
    /// Free words of the tree region.
    pub around: Set<int>,
    /// Number of words.
    pub len: int,
}

/// The free words.
pub open spec fn free_set(f: FreeRuns) -> Set<int> {
    Set::new(|w: int| f.has(w))
}

/// Words `lo .. lo + n`.
pub open spec fn span(lo: int, n: int) -> Set<int> {
    Set::new(|w: int| lo <= w < lo + n)
}

/// A free piece starts at `t` and its first `n` words are free.
pub open spec fn fits(f: Set<int>, t: int, n: int) -> bool {
    &&& f.contains(t)
    &&& !f.contains(t - 1)
    &&& forall|w: int| t <= w < t + n ==> f.contains(w)
}

/// No free piece has `n` words.
pub open spec fn no_fit(f: Set<int>, n: int) -> bool {
    forall|t: int| !fits(f, t, n)
}

/// `t` is the start of the first free piece that has `n` words.
pub open spec fn first_fit(f: Set<int>, n: int, t: int) -> bool {
    fits(f, t, n) && forall|u: int| u < t ==> !fits(f, u, n)
}

/// A block of `n` words is put at `at`: in the first free segment that has room for it, or else at the
/// end of the `len` words, which then are `len2`.
pub open spec fn put_at(f: Set<int>, len: int, n: int, at: int, len2: int) -> bool {
    if no_fit(f, n) {
        at == len && len2 == len + n
    } else {
        first_fit(f, n, at) && len2 == len
    }
}

impl Arena {
    /// `b` is `a` with the block moved to a larger place.
    pub open spec fn grew(a: Arena, b: Arena) -> bool {
        let n = grown(a.cap);
        &&& b.cap == n
        &&& put_at(a.around, a.len, n, b.base, b.len)
        &&& b.around == a.around.difference(span(b.base, n)).union(span(a.base, a.cap))
        &&& b.free == a.free.union(span(a.cap, n - a.cap))
        &&& b.slots == a.slots
    }

    /// `b` is `a` with the first free piece of `n` words, at `off`, cut off its start.
    pub open spec fn cut(a: Arena, b: Arena, n: int, off: int) -> bool {
        &&& first_fit(a.free, n, off)
        &&& b == (Arena { free: a.free.difference(span(off, n)), ..a })
    }

    /// `b` is `a` with `n` words taken at `off`; the block grows where it has no such piece.
    pub open spec fn took(a: Arena, b: Arena, n: int, off: int) -> bool {
        if no_fit(a.free, n) {
            exists|g: Arena| #[trigger] Arena::grew(a, g) && Arena::cut(g, b, n, off)
        } else {
            Arena::cut(a, b, n, off)
        }
    }

    /// `b` is `a` with `n` words taken for node `id`.
    pub open spec fn moved(a: Arena, b: Arena, id: u32, n: int) -> bool {
        exists|m: Arena, off: u32| #[trigger]
            Arena::took(a, m, n, off as int) && b == (Arena {
                slots: a.slots.update(id as int, NodeSlot { off, words: n as u16 }),
                ..m
            })
    }

    /// `b` is `a` with node `id` given a place of `n` words.
    pub open spec fn placed(a: Arena, b: Arena, id: u32, n: int) -> bool {
        let cur = a.slots[id as int];
        if cur.off != NODE_NONE && n <= cur.words {
            b == (Arena {
                free: a.free.union(span(cur.off + n, cur.words - n)),
                slots: a.slots.update(id as int, NodeSlot { off: cur.off, words: n as u16 }),
                ..a
            })
        } else if cur.off != NODE_NONE && span(cur.off + cur.words, n - cur.words).subset_of(a.free) {
            b == (Arena {
                free: a.free.difference(span(cur.off + cur.words, n - cur.words)),
                slots: a.slots.update(id as int, NodeSlot { off: cur.off, words: n as u16 }),
                ..a
            })
        } else {
            Arena::moved(
                if cur.off == NODE_NONE {
                    a
                } else {
                    Arena { free: a.free.union(span(cur.off as int, cur.words as int)), ..a }
                },
                b,
                id,
                n,
            )
        }
    }

    /// `b` is `a` with the words `freed` given back and node `id` given a place of `n` words.
    pub open spec fn renewed(a: Arena, b: Arena, freed: Set<int>, id: u32, n: int) -> bool {
        Arena::placed(Arena { free: a.free.union(freed), ..a }, b, id, n)
    }
}

/// The words that node `id` frees when it becomes uniform: those of the nodes that were below it.
pub open spec fn freed_below(t0: TreeModel, t1: TreeModel, slots: Seq<NodeSlot>, id: u32) -> Set<int> {
    if t0.dom().contains(id) && t0[id].level < 3 && t1[id].mask == 0 {
        Set::new(
            |w: int|
                owned_by_children(
                    slots,
                    t0,
                    id,
                    t0[id].children.len() as int,
                    (2 - t0[id].level) as nat,
                    w,
                ),
        )
    } else {
        Set::empty()
    }
}

/// The arena after entry `k` of a report was worked off, from the one before it. What a node frees, it
/// frees the first time that the report names it.
pub open spec fn entry_done(
    a: Arena,
    b: Arena,
    t0: TreeModel,
    t1: TreeModel,
    list: Seq<(u8, u32)>,
    k: int,
) -> bool {
    let id = list[k].1;
    let freed = if super::batch::seen(list, k, id) {
        Set::empty()
    } else {
        freed_below(t0, t1, a.slots, id)
    };
    Arena::renewed(a, b, freed, id, room(id, t1[id]))
}

/// `steps` leads through the first `n` entries of a report.
pub open spec fn entries_done(
    steps: Seq<Arena>,
    t0: TreeModel,
    t1: TreeModel,
    list: Seq<(u8, u32)>,
    n: int,
) -> bool {
    &&& steps.len() == n + 1
    &&& forall|k: int|
        0 <= k < n ==> entry_done(#[trigger] steps[k], steps[k + 1], t0, t1, list, k)
}

/// `slots` with places for `n` ids, the new ones unused.
pub open spec fn padded(slots: Seq<NodeSlot>, n: int) -> Seq<NodeSlot> {
    Seq::new(
        if slots.len() < n {
            n as nat
        } else {
            slots.len()
        },
        |i: int|
            if i < slots.len() {
                slots[i]
            } else {
                NodeSlot { off: NODE_NONE, words: 0 }
            },
    )
}

} // verus!
