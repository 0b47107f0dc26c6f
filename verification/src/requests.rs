//! What rays asked for and saw: merging the request ring and the use stamps.
//!
//! The request buffer holds a running count, a reserved word and a stamp counter, then one use stamp
//! per window chunk and volume, then a ring of request words. A request word has the window position
//! of a chunk in bits 0 to 17, the level asked for in bits 18 and 19, and the volume in bits 21
//! and 22.

use crate::brickmap::consts::{
    LOD_REQ_WORDS, REQ_BASE, REQ_CAP, REQ_FEED_MAX, USE_BASE, USE_WORDS, VOLUMES,
};
use crate::math::IVec3;
use crate::sort::{ordered, sorted, Ranked};
use vstd::prelude::*;

verus! {

/// A chunk that rays missed.
#[derive(Debug, Clone, Copy, PartialEq, Eq, Structural)]
pub struct LodRequest {
    /// Volume: 0 is the main world.
    pub vol: u8,
    pub chunk: IVec3,
    /// Rays that asked for it.
    pub votes: u32,
    /// The finest level asked for: 0 is full detail, 3 the whole chunk as one.
    pub level: u8,
}

/// A chunk that rays saw.
#[derive(Debug, Clone, Copy, PartialEq, Eq, Structural)]
pub struct LodUse {
    pub vol: u8,
    pub chunk: IVec3,
    pub stamp: u32,
}

/// Window position from its packed form: three fields of six bits.
pub open spec fn unpack_rel(key: int) -> IVec3 {
    IVec3 {
        x: (key % 64) as i32,
        y: (key / 64 % 64) as i32,
        z: (key / 4096 % 64) as i32,
    }
}

/// Window position from its packed form.
pub fn req_rel(key: u32) -> (r: IVec3)
    ensures
        r == unpack_rel(key as int),
        0 <= r.x < 64,
        0 <= r.y < 64,
        0 <= r.z < 64,
{
    IVec3::new((key % 64) as i32, (key / 64 % 64) as i32, (key / 4096 % 64) as i32)
}

/// The chunk at packed window position `key` of a window at `origin`.
pub open spec fn chunk_at(origin: IVec3, key: int) -> IVec3 {
    let r = unpack_rel(key);
    IVec3 { x: (origin.x + r.x) as i32, y: (origin.y + r.y) as i32, z: (origin.z + r.z) as i32 }
}

/// A window whose chunks all have coordinates.
pub open spec fn window_fits(o: IVec3) -> bool {
    o.x <= i32::MAX - 63 && o.y <= i32::MAX - 63 && o.z <= i32::MAX - 63
}

fn chunk_of(origin: IVec3, key: u32) -> (r: IVec3)
    requires
        window_fits(origin),
    ensures
        r == chunk_at(origin, key as int),
{
    let p: IVec3 = req_rel(key);
    IVec3::new(origin.x + p.x, origin.y + p.y, origin.z + p.z)
}

/// Volume segment and window position of a request word, as one number.
pub open spec fn word_key(w: u32) -> int {
    ((w >> 21) & 3) * 262144 + (w & 0x3_FFFF)
}

/// Level of a request word.
pub open spec fn word_level(w: u32) -> u32 {
    (w >> 18) & 3
}

/// The `k`-th newest request word.
pub open spec fn ring_word(words: Seq<u32>, count: u32, k: int) -> u32 {
    words[REQ_BASE + (count - 1 - k) % 1048576]
}

/// Requests for `key` among the `n` newest.
pub open spec fn votes_for(words: Seq<u32>, count: u32, n: nat, key: int) -> nat
    decreases n,
{
    if n == 0 {
        0
    } else {
        votes_for(words, count, (n - 1) as nat, key) + (if word_key(ring_word(words, count, n - 1))
            == key {
            1nat
        } else {
            0nat
        })
    }
}

/// The finest level asked of `key` among the `n` newest.
pub open spec fn finest_for(words: Seq<u32>, count: u32, n: nat, key: int) -> u32
    decreases n,
{
    if n == 0 {
        3
    } else {
        let best = finest_for(words, count, (n - 1) as nat, key);
        let w = ring_word(words, count, n - 1);
        if word_key(w) == key && word_level(w) < best {
            word_level(w)
        } else {
            best
        }
    }
}

/// Stamp `s` was given between the last two readings.
pub open spec fn in_span(tick: u32, span: u32, s: u32) -> bool {
    s != 0 && 0 < wrapped(tick, s) <= span
}

/// `a - b` in 32 bits.
pub open spec fn wrapped(a: u32, b: u32) -> int {
    if a >= b {
        a - b
    } else {
        a - b + 0x1_0000_0000
    }
}

/// Uses of volume `vol` among its first `n` positions.
pub open spec fn uses_in(
    words: Seq<u32>,
    origin: IVec3,
    vol: int,
    tick: u32,
    span: u32,
    n: nat,
) -> Seq<LodUse>
    decreases n,
{
    if n == 0 {
        Seq::empty()
    } else {
        let rest = uses_in(words, origin, vol, tick, span, (n - 1) as nat);
        let s = words[USE_BASE + vol * 262144 + (n - 1)];
        if in_span(tick, span, s) {
            rest.push(LodUse { vol: vol as u8, chunk: chunk_at(origin, n - 1), stamp: s })
        } else {
            rest
        }
    }
}

/// Uses of the first `nv` volumes.
pub open spec fn uses_of(
    words: Seq<u32>,
    windows: Seq<IVec3>,
    tick: u32,
    span: u32,
    nv: nat,
) -> Seq<LodUse>
    decreases nv,
{
    if nv == 0 {
        Seq::empty()
    } else {
        uses_of(words, windows, tick, span, (nv - 1) as nat) + uses_in(
            words,
            windows[nv - 1],
            nv - 1,
            tick,
            span,
            262144,
        )
    }
}

/// A merged request before its chunk is worked out.
#[derive(Debug, Clone, Copy, PartialEq, Eq, Structural)]
pub struct Tally {
    pub key: u32,
    pub votes: u32,
}

impl Ranked for Tally {
    /// Most votes first, then by key.
    open spec fn before(self, o: Self) -> bool {
        self.votes > o.votes || (self.votes == o.votes && self.key < o.key)
    }

    fn is_before(&self, o: &Self) -> (r: bool) {
        self.votes > o.votes || (self.votes == o.votes && self.key < o.key)
    }

    proof fn law(a: Self, b: Self, c: Self) {
    }
}

/// `order` holds every key that was asked for, with its votes, most votes first.
pub open spec fn tallies(order: Seq<Tally>, words: Seq<u32>, count: u32, n: nat) -> bool {
    &&& ordered(order)
    &&& order.no_duplicates()
    &&& forall|t: Tally| #[trigger]
        order.contains(t) <==> t.votes > 0 && t.votes == votes_for(words, count, n, t.key as int)
}

/// Entries of volume `vol` among the first `n`.
pub open spec fn of_volume(order: Seq<Tally>, n: nat, vol: int) -> nat
    decreases n,
{
    if n == 0 {
        0
    } else {
        of_volume(order, (n - 1) as nat, vol) + (if order[n - 1].key as int / 262144 == vol {
            1nat
        } else {
            0nat
        })
    }
}

/// The first entries of each volume, up to its quota.
pub open spec fn within_quota(order: Seq<Tally>, n: nat) -> Seq<Tally>
    decreases n,
{
    if n == 0 {
        Seq::empty()
    } else {
        let rest = within_quota(order, (n - 1) as nat);
        let t = order[n - 1];
        if of_volume(order, (n - 1) as nat, t.key as int / 262144) < REQ_FEED_MAX {
            rest.push(t)
        } else {
            rest
        }
    }
}

/// A merged request.
pub open spec fn request_of(
    t: Tally,
    words: Seq<u32>,
    windows: Seq<IVec3>,
    count: u32,
    n: nat,
) -> LodRequest {
    let vol = t.key as int / 262144;
    let origin = if vol < windows.len() {
        windows[vol]
    } else {
        IVec3 { x: 0, y: 0, z: 0 }
    };
    LodRequest {
        vol: vol as u8,
        chunk: chunk_at(origin, t.key as int % 262144),
        votes: t.votes,
        level: finest_for(words, count, n, t.key as int) as u8,
    }
}

/// The merged requests of the `n` newest words: by votes, up to the quota of each volume.
pub open spec fn is_merge(
    merged: Seq<LodRequest>,
    distinct: int,
    words: Seq<u32>,
    windows: Seq<IVec3>,
    count: u32,
    n: nat,
) -> bool {
    exists|order: Seq<Tally>| #[trigger]
        tallies(order, words, count, n) && distinct == order.len() && merged.len() == within_quota(
            order,
            order.len(),
        ).len() && forall|i: int|
            0 <= i < merged.len() ==> #[trigger] merged[i] == request_of(
                within_quota(order, order.len())[i],
                words,
                windows,
                count,
                n,
            )
}

/// What one reading gives.
#[derive(Debug)]
pub struct RequestReport {
    /// Chunks seen since the last reading.
    pub used: Vec<LodUse>,
    /// Chunks asked for since the last reading, most votes first.
    pub merged: Vec<LodRequest>,
    /// Different chunks asked for.
    pub distinct: usize,
    /// Requests since the last reading.
    pub fresh: u32,
    /// Requests that the ring has lost.
    pub lost: u32,
}

/// What a reading reports, after one that found the counters `last`.
pub open spec fn reported(
    last: Option<(u32, u32)>,
    words: Seq<u32>,
    windows: Seq<IVec3>,
    r: RequestReport,
) -> bool {
    let nv: int = if windows.len() < VOLUMES {
        windows.len() as int
    } else {
        VOLUMES as int
    };
    let span: int = match last {
        None => 0,
        Some(p) => wrapped(words[2], p.1),
    };
    let fresh: int = match last {
        None => 0,
        Some(p) => wrapped(words[0], p.0),
    };
    let n: int = if fresh < REQ_CAP {
        fresh
    } else {
        REQ_CAP as int
    };
    &&& r.used@ == (if span == 0 {
        Seq::empty()
    } else {
        uses_of(words, windows, words[2], span as u32, nv as nat)
    })
    &&& r.fresh == fresh
    &&& r.lost == fresh - n
    &&& is_merge(r.merged@, r.distinct as int, words, windows, words[0], n as nat)
}

/// Keys of the request tables.
pub const CELLS: usize = 1048576;

/// Reads request buffers one after the other.
pub struct RequestReader {
    /// Count and stamp counter at the last reading.
    prev: Option<(u32, u32)>,
    counts: Vec<u32>,
    finest: Vec<u32>,
    /// Keys whose cells are in use.
    touched: Vec<u32>,
}

proof fn lemma_word_bounds(w: u32)
    ensures
        0 <= word_key(w) < 1048576,
        word_level(w) <= 3,
{
    assert((w >> 21) & 3 <= 3 && (w >> 18) & 3 <= 3 && (w & 0x3_FFFF) < 262144) by (bit_vector);
}

impl RequestReader {
    /// Cells that are not in use are clear.
    pub closed spec fn wf(&self) -> bool {
        &&& self.counts.len() == CELLS
        &&& self.finest.len() == CELLS
        &&& forall|i: int| 0 <= i < self.touched.len() ==> (#[trigger] self.touched@[i]) < CELLS
        &&& forall|k: u32|
            k < CELLS && !self.touched@.contains(k) ==> #[trigger] self.counts@[k as int] == 0
                && self.finest@[k as int] == 3
    }

    /// Count and stamp counter at the last reading.
    pub closed spec fn last(&self) -> Option<(u32, u32)> {
        self.prev
    }

    pub fn new() -> (r: Self)
        ensures
            r.wf(),
            r.last() is None,
    {
        RequestReader {
            prev: None,
            counts: vec![0; CELLS],
            finest: vec![3; CELLS],
            touched: Vec::new(),
        }
    }

    /// Reads one request buffer.
    ///
    /// The first reading sets the baseline: it reports no uses and no requests. Later ones report the
    /// stamps given and the requests made since.
    pub fn read(&mut self, words: &Vec<u32>, windows: &Vec<IVec3>) -> (r: RequestReport)
        requires
            old(self).wf(),
            words.len() == LOD_REQ_WORDS,
            forall|i: int| 0 <= i < windows.len() ==> window_fits(#[trigger] windows@[i]),
        ensures
            final(self).wf(),
            final(self).last() == Some((words[0], words[2])),
            reported(old(self).last(), words@, windows@, r),
            ({
                let nv: int = if windows.len() < VOLUMES {
                    windows.len() as int
                } else {
                    VOLUMES as int
                };
                let span: int = match old(self).last() {
                    None => 0,
                    Some(p) => wrapped(words[2], p.1),
                };
                r.used@ == (if span == 0 {
                    Seq::empty()
                } else {
                    uses_of(words@, windows@, words[2], span as u32, nv as nat)
                })
            }),
            r.fresh == (match old(self).last() {
                None => 0,
                Some(p) => wrapped(words[0], p.0),
            }),
            r.lost == (if r.fresh > REQ_CAP {
                r.fresh - REQ_CAP
            } else {
                0
            }),
            is_merge(
                r.merged@,
                r.distinct as int,
                words@,
                windows@,
                words[0],
                (if r.fresh < REQ_CAP {
                    r.fresh as nat
                } else {
                    REQ_CAP as nat
                }),
            ),
    {
        let (count, tick): (u32, u32) = (words[0], words[2]);
        let span: u32 = match self.prev {
            None => 0,
            Some(p) => tick.wrapping_sub(p.1),
        };
        let used: Vec<LodUse> = if span > 0 {
            collect_uses(words, windows, tick, span)
        } else {
            Vec::new()
        };
        let fresh: u32 = match self.prev {
            None => 0,
            Some(p) => count.wrapping_sub(p.0),
        };
        self.prev = Some((count, tick));
        let lost: u32 = if fresh as usize > REQ_CAP { fresh - REQ_CAP as u32 } else { 0 };
        let n: usize = if (fresh as usize) < REQ_CAP { fresh as usize } else { REQ_CAP };
        if n == 0 {
            proof {
                let order: Seq<Tally> = Seq::empty();
                assert forall|t: Tally| #[trigger] order.contains(t) <==> t.votes > 0 && t.votes
                    == votes_for(words@, count, 0, t.key as int) by {}
                assert(tallies(order, words@, count, 0));
            }
            return RequestReport { used, merged: Vec::new(), distinct: 0, fresh, lost };
        }
        self.clear();
        self.tally(words, count, n);
        let order: Vec<Tally> = self.rank(words, count, n);
        let merged: Vec<LodRequest> = self.merge(&order, words, windows, count, n);
        proof {
            assert(tallies(order@, words@, count, n as nat));
        }
        RequestReport { used, merged, distinct: order.len(), fresh, lost }
    }

    /// Clears the cells in use.
    #[verifier::spinoff_prover]
    fn clear(&mut self)
        requires
            old(self).wf(),
        ensures
            final(self).wf(),
            final(self).prev == old(self).prev,
            final(self).touched@.len() == 0,
            forall|k: int| 0 <= k < CELLS ==> #[trigger] final(self).counts@[k] == 0,
            forall|k: int| 0 <= k < CELLS ==> #[trigger] final(self).finest@[k] == 3,
    {
        let mut i: usize = 0;
        while i < self.touched.len()
            invariant
                i <= self.touched.len(),
                self.touched == old(self).touched,
                self.prev == old(self).prev,
                self.counts.len() == CELLS,
                self.finest.len() == CELLS,
                forall|j: int| 0 <= j < self.touched.len() ==> (#[trigger] self.touched@[j]) < CELLS,
                forall|k: u32|
                    k < CELLS && (!self.touched@.contains(k) || exists|j: int|
                        0 <= j < i && #[trigger] self.touched@[j] == k)
                        ==> #[trigger] self.counts@[k as int] == 0 && self.finest@[k as int] == 3,
            decreases self.touched.len() - i,
        {
            let k: usize = self.touched[i] as usize;
            self.counts[k] = 0;
            self.finest[k] = 3;
            i += 1;
        }
        proof {
            assert forall|k: int| 0 <= k < CELLS implies #[trigger] self.counts@[k] == 0
                && self.finest@[k] == 3 by {
                let kk = k as u32;
                if self.touched@.contains(kk) {
                    let j = choose|j: int| 0 <= j < self.touched@.len() && self.touched@[j] == kk;
                    assert(self.touched@[j] == kk);
                }
                assert(self.counts@[kk as int] == 0 && self.finest@[kk as int] == 3);
            }
        }
        let ghost finest = self.finest@;
        assert forall|k: int| 0 <= k < CELLS implies #[trigger] finest[k] == 3 by {
            assert(self.counts@[k] == 0);
        }
        self.touched.clear();
    }

    /// Counts the `n` newest requests.
    fn tally(&mut self, words: &Vec<u32>, count: u32, n: usize)
        requires
            old(self).wf(),
            old(self).touched@.len() == 0,
            forall|k: int| 0 <= k < CELLS ==> #[trigger] old(self).counts@[k] == 0,
            forall|k: int| 0 <= k < CELLS ==> #[trigger] old(self).finest@[k] == 3,
            words.len() == LOD_REQ_WORDS,
            n <= REQ_CAP,
        ensures
            final(self).wf(),
            final(self).prev == old(self).prev,
            final(self).touched@.no_duplicates(),
            forall|k: int|
                0 <= k < CELLS ==> #[trigger] final(self).counts@[k] == votes_for(
                    words@,
                    count,
                    n as nat,
                    k,
                ),
            forall|k: int|
                0 <= k < CELLS ==> #[trigger] final(self).finest@[k] == finest_for(
                    words@,
                    count,
                    n as nat,
                    k,
                ),
            forall|k: u32|
                k < CELLS ==> (final(self).touched@.contains(k) <==> #[trigger] final(
                    self).counts@[k as int] > 0),
    {
        let mut slot: usize = (count.wrapping_sub(1) as usize) % REQ_CAP;
        let mut i: usize = 0;
        assert(slot == (count - 1) % 1048576);
        while i < n
            invariant
                i <= n <= REQ_CAP,
                words.len() == LOD_REQ_WORDS,
                slot < REQ_CAP,
                slot == (count - 1 - i) % 1048576,
                self.prev == old(self).prev,
                self.counts.len() == CELLS,
                self.finest.len() == CELLS,
                self.touched@.no_duplicates(),
                forall|j: int| 0 <= j < self.touched.len() ==> (#[trigger] self.touched@[j]) < CELLS,
                forall|k: int|
                    0 <= k < CELLS ==> #[trigger] self.counts@[k] == votes_for(
                        words@,
                        count,
                        i as nat,
                        k,
                    ) && self.counts@[k] <= i,
                forall|k: int|
                    0 <= k < CELLS ==> #[trigger] self.finest@[k] == finest_for(
                        words@,
                        count,
                        i as nat,
                        k,
                    ),
                forall|k: u32|
                    k < CELLS ==> (self.touched@.contains(k) <==> #[trigger] self.counts@[k as int]
                        > 0),
            decreases n - i,
        {
            let w: u32 = words[REQ_BASE + slot];
            proof {
                lemma_word_bounds(w);
                assert(w == ring_word(words@, count, i as int));
            }
            let vol: u32 = (w >> 21) & 3;
            let rel: u32 = w & 0x3_FFFF;
            let key: usize = vol as usize * USE_WORDS + rel as usize;
            let ghost t0 = self.touched@;
            let ghost c0 = self.counts@;
            if self.counts[key] == 0 {
                self.touched.push(key as u32);
            }
            self.counts[key] = self.counts[key] + 1;
            let lv: u32 = (w >> 18) & 3;
            if lv < self.finest[key] {
                self.finest[key] = lv;
            }
            proof {
                let kk = key as u32;
                assert forall|k: u32| k < CELLS implies (self.touched@.contains(k)
                    <==> #[trigger] self.counts@[k as int] > 0) by {
                    assert(t0.contains(k) <==> c0[k as int] > 0);
                    if t0.contains(k) {
                        let j = choose|j: int| 0 <= j < t0.len() && t0[j] == k;
                        assert(self.touched@[j] == k);
                    }
                    if k == kk && c0[key as int] == 0 {
                        assert(self.touched@[t0.len() as int] == kk);
                    }
                    if self.touched@.contains(k) && k != kk {
                        let j = choose|j: int| 0 <= j < self.touched@.len() && self.touched@[j] == k;
                        assert(t0[j] == k);
                    }
                }
                if c0[key as int] == 0 {
                    assert(!t0.contains(kk)) by {
                        assert(c0[kk as int] == 0);
                    }
                }
            }
            slot = if slot == 0 { REQ_CAP - 1 } else { slot - 1 };
            i += 1;
        }
        proof {
            assert forall|k: u32| k < CELLS && !self.touched@.contains(k) implies
                #[trigger] self.counts@[k as int] == 0 && self.finest@[k as int] == 3 by {
                assert(self.counts@[k as int] == votes_for(words@, count, n as nat, k as int));
                assert(self.finest@[k as int] == finest_for(words@, count, n as nat, k as int));
                lemma_unasked(words@, count, n as nat, k as int);
            }
        }
    }

    /// The keys asked for, most votes first.
    fn rank(&self, words: &Vec<u32>, count: u32, n: usize) -> (r: Vec<Tally>)
        requires
            self.wf(),
            self.touched@.no_duplicates(),
            forall|k: int|
                0 <= k < CELLS ==> #[trigger] self.counts@[k] == votes_for(
                    words@,
                    count,
                    n as nat,
                    k,
                ),
            forall|k: u32|
                k < CELLS ==> (self.touched@.contains(k) <==> #[trigger] self.counts@[k as int] > 0),
        ensures
            tallies(r@, words@, count, n as nat),
            forall|i: int| 0 <= i < r.len() ==> (#[trigger] r@[i]).key < CELLS,
    {
        let mut all: Vec<Tally> = Vec::new();
        let mut i: usize = 0;
        while i < self.touched.len()
            invariant
                i <= self.touched.len(),
                self.wf(),
                all.len() == i,
                forall|j: int|
                    0 <= j < i ==> #[trigger] all@[j] == (Tally {
                        key: self.touched@[j],
                        votes: self.counts@[self.touched@[j] as int],
                    }),
            decreases self.touched.len() - i,
        {
            let k: u32 = self.touched[i];
            all.push(Tally { key: k, votes: self.counts[k as usize] });
            i += 1;
        }
        let r: Vec<Tally> = sorted(&all);
        proof {
            crate::sort::lemma_same_items(all@, r@);
            assert(all@.no_duplicates()) by {
                assert forall|a: int, b: int| 0 <= a < all@.len() && 0 <= b < all@.len() && a != b implies all@[a]
                    != all@[b] by {
                    assert(self.touched@[a] != self.touched@[b]);
                }
            }
            crate::sort::lemma_same_distinct(all@, r@);
            assert forall|t: Tally| #[trigger] r@.contains(t) <==> t.votes > 0 && t.votes == votes_for(
                words@,
                count,
                n as nat,
                t.key as int,
            ) by {
                if all@.contains(t) {
                    let j = choose|j: int| 0 <= j < all@.len() && all@[j] == t;
                    assert(self.touched@.contains(self.touched@[j]));
                }
                if t.votes > 0 && t.votes == votes_for(words@, count, n as nat, t.key as int) {
                    if t.key >= CELLS {
                        lemma_no_votes(words@, count, n as nat, t.key as int);
                    }
                    assert(self.counts@[t.key as int] > 0);
                    let j = choose|j: int|
                        0 <= j < self.touched@.len() && self.touched@[j] == t.key;
                    assert(all@[j] == t);
                    assert(all@.contains(t));
                }
            }
            assert forall|j: int| 0 <= j < r@.len() implies (#[trigger] r@[j]).key < CELLS by {
                assert(r@.contains(r@[j]));
                if r@[j].key >= CELLS {
                    lemma_no_votes(words@, count, n as nat, r@[j].key as int);
                }
            }
        }
        r
    }

    /// The requests within the quotas.
    fn merge(
        &self,
        order: &Vec<Tally>,
        words: &Vec<u32>,
        windows: &Vec<IVec3>,
        count: u32,
        n: usize,
    ) -> (r: Vec<LodRequest>)
        requires
            self.wf(),
            forall|i: int| 0 <= i < order.len() ==> (#[trigger] order@[i]).key < CELLS,
            forall|i: int| 0 <= i < windows.len() ==> window_fits(#[trigger] windows@[i]),
            forall|k: int|
                0 <= k < CELLS ==> #[trigger] self.finest@[k] == finest_for(
                    words@,
                    count,
                    n as nat,
                    k,
                ),
        ensures
            r.len() == within_quota(order@, order@.len()).len(),
            forall|i: int|
                0 <= i < r.len() ==> #[trigger] r@[i] == request_of(
                    within_quota(order@, order@.len())[i],
                    words@,
                    windows@,
                    count,
                    n as nat,
                ),
    {
        let mut r: Vec<LodRequest> = Vec::new();
        let mut per_vol: Vec<usize> = vec![0; VOLUMES];
        let mut i: usize = 0;
        while i < order.len()
            invariant
                i <= order.len(),
                self.wf(),
                forall|j: int| 0 <= j < order.len() ==> (#[trigger] order@[j]).key < CELLS,
                forall|j: int| 0 <= j < windows.len() ==> window_fits(#[trigger] windows@[j]),
                forall|k: int|
                    0 <= k < CELLS ==> #[trigger] self.finest@[k] == finest_for(
                        words@,
                        count,
                        n as nat,
                        k,
                    ),
                per_vol.len() == VOLUMES,
                forall|v: int|
                    0 <= v < VOLUMES ==> #[trigger] per_vol@[v] == (if of_volume(
                        order@,
                        i as nat,
                        v,
                    ) < REQ_FEED_MAX {
                        of_volume(order@, i as nat, v) as int
                    } else {
                        REQ_FEED_MAX as int
                    }),
                r.len() == within_quota(order@, i as nat).len(),
                forall|j: int|
                    0 <= j < r.len() ==> #[trigger] r@[j] == request_of(
                        within_quota(order@, i as nat)[j],
                        words@,
                        windows@,
                        count,
                        n as nat,
                    ),
            decreases order.len() - i,
        {
            let t: Tally = order[i];
            let vol: usize = t.key as usize / USE_WORDS;
            assert(vol < VOLUMES);
            if per_vol[vol] < REQ_FEED_MAX {
                per_vol[vol] = per_vol[vol] + 1;
                let origin: IVec3 = if vol < windows.len() { windows[vol] } else { IVec3::splat(0) };
                let f: u32 = self.finest[t.key as usize];
                proof {
                    lemma_finest(words@, count, n as nat, t.key as int);
                    if vol < windows.len() {
                        assert(window_fits(windows@[vol as int]));
                    }
                }
                r.push(
                    LodRequest {
                        vol: vol as u8,
                        chunk: chunk_of(origin, t.key % USE_WORDS as u32),
                        votes: t.votes,
                        level: f as u8,
                    },
                );
            }
            i += 1;
        }
        r
    }
}

proof fn lemma_no_votes(words: Seq<u32>, count: u32, n: nat, key: int)
    requires
        key >= CELLS,
    ensures
        votes_for(words, count, n, key) == 0,
    decreases n,
{
    if n > 0 {
        lemma_no_votes(words, count, (n - 1) as nat, key);
        lemma_word_bounds(ring_word(words, count, n - 1));
    }
}

proof fn lemma_unasked(words: Seq<u32>, count: u32, n: nat, key: int)
    requires
        votes_for(words, count, n, key) == 0,
    ensures
        finest_for(words, count, n, key) == 3,
    decreases n,
{
    if n > 0 {
        lemma_unasked(words, count, (n - 1) as nat, key);
    }
}

proof fn lemma_finest(words: Seq<u32>, count: u32, n: nat, key: int)
    ensures
        finest_for(words, count, n, key) <= 3,
    decreases n,
{
    if n > 0 {
        lemma_finest(words, count, (n - 1) as nat, key);
    }
}

/// The chunks whose stamps were given within the span.
fn collect_uses(words: &Vec<u32>, windows: &Vec<IVec3>, tick: u32, span: u32) -> (r: Vec<LodUse>)
    requires
        words.len() == LOD_REQ_WORDS,
        forall|i: int| 0 <= i < windows.len() ==> window_fits(#[trigger] windows@[i]),
    ensures
        r@ == uses_of(
            words@,
            windows@,
            tick,
            span,
            (if windows.len() < VOLUMES {
                windows.len() as nat
            } else {
                VOLUMES as nat
            }),
        ),
{
    let nv: usize = if windows.len() < VOLUMES { windows.len() } else { VOLUMES };
    let mut r: Vec<LodUse> = Vec::new();
    let mut vol: usize = 0;
    while vol < nv
        invariant
            vol <= nv <= VOLUMES,
            nv <= windows.len(),
            words.len() == LOD_REQ_WORDS,
            forall|i: int| 0 <= i < windows.len() ==> window_fits(#[trigger] windows@[i]),
            r@ == uses_of(words@, windows@, tick, span, vol as nat),
        decreases nv - vol,
    {
        let origin: IVec3 = windows[vol];
        let ghost before = r@;
        let mut i: usize = 0;
        assert(before + uses_in(words@, origin, vol as int, tick, span, 0) =~= before);
        while i < USE_WORDS
            invariant
                i <= USE_WORDS,
                vol < nv <= VOLUMES,
                window_fits(origin),
                words.len() == LOD_REQ_WORDS,
                r@ == before + uses_in(words@, origin, vol as int, tick, span, i as nat),
            decreases USE_WORDS - i,
        {
            let s: u32 = words[USE_BASE + vol * USE_WORDS + i];
            let d: u32 = tick.wrapping_sub(s);
            let ghost r0 = r@;
            if s != 0 && d > 0 && d <= span {
                r.push(LodUse { vol: vol as u8, chunk: chunk_of(origin, i as u32), stamp: s });
            }
            proof {
                assert(r@ =~= before + uses_in(words@, origin, vol as int, tick, span, (i + 1) as nat));
            }
            i += 1;
        }
        vol += 1;
    }
    r
}

/// Counter differences since the last reading; nothing at the first.
pub fn diag_delta(prev: Option<[u32; 3]>, cur: [u32; 3]) -> (r: [u32; 3])
    ensures
        forall|i: int|
            0 <= i < 3 ==> #[trigger] r[i] == (match prev {
                None => 0,
                Some(p) => wrapped(cur[i], p[i]),
            }),
{
    match prev {
        None => [0, 0, 0],
        Some(p) => [
            cur[0].wrapping_sub(p[0]),
            cur[1].wrapping_sub(p[1]),
            cur[2].wrapping_sub(p[2]),
        ],
    }
}

proof fn lemma_same_sorted(a: Seq<Tally>, b: Seq<Tally>)
    requires
        ordered(a),
        ordered(b),
        a.no_duplicates(),
        b.no_duplicates(),
        forall|t: Tally| a.contains(t) <==> b.contains(t),
    ensures
        a == b,
    decreases a.len(),
{
    if a.len() == 0 {
        if b.len() > 0 {
            assert(b.contains(b[0]));
        }
        assert(a =~= b);
    } else {
        assert(a.contains(a[0]));
        let j = choose|j: int| 0 <= j < b.len() && b[j] == a[0];
        assert(b.contains(b[0]));
        let i = choose|i: int| 0 <= i < a.len() && a[i] == b[0];
        if j > 0 {
            assert(!b[j].before(b[0]));
            if i > 0 {
                assert(!a[i].before(a[0]));
            }
            assert(b[0] != b[j]);
        }
        let (ra, rb) = (a.drop_first(), b.drop_first());
        assert forall|t: Tally| ra.contains(t) <==> rb.contains(t) by {
            if ra.contains(t) {
                let k = choose|k: int| 0 <= k < ra.len() && ra[k] == t;
                assert(a[k + 1] == t);
                assert(a.contains(t) && t != a[0]);
                let l = choose|l: int| 0 <= l < b.len() && b[l] == t;
                assert(rb[l - 1] == t);
            }
            if rb.contains(t) {
                let k = choose|k: int| 0 <= k < rb.len() && rb[k] == t;
                assert(b[k + 1] == t);
                assert(b.contains(t) && t != b[0]);
                let l = choose|l: int| 0 <= l < a.len() && a[l] == t;
                assert(ra[l - 1] == t);
            }
        }
        assert forall|x: int, y: int| 0 <= x < y < ra.len() implies !(#[trigger] ra[y]).before(
            #[trigger] ra[x],
        ) by {
            assert(!a[y + 1].before(a[x + 1]));
        }
        assert forall|x: int, y: int| 0 <= x < y < rb.len() implies !(#[trigger] rb[y]).before(
            #[trigger] rb[x],
        ) by {
            assert(!b[y + 1].before(b[x + 1]));
        }
        lemma_same_sorted(ra, rb);
        assert(a =~= seq![a[0]] + ra);
        assert(b =~= seq![b[0]] + rb);
    }
}

/// A request buffer has one merged list: the order of requests with the same number of votes is
/// fixed as well.
pub proof fn lemma_merge_is_unique(
    a: Seq<LodRequest>,
    b: Seq<LodRequest>,
    da: int,
    db: int,
    words: Seq<u32>,
    windows: Seq<IVec3>,
    count: u32,
    n: nat,
)
    requires
        is_merge(a, da, words, windows, count, n),
        is_merge(b, db, words, windows, count, n),
    ensures
        a == b,
        da == db,
{
    let oa = choose|order: Seq<Tally>| #[trigger]
        tallies(order, words, count, n) && da == order.len() && a.len() == within_quota(
            order,
            order.len(),
        ).len() && forall|i: int|
            0 <= i < a.len() ==> #[trigger] a[i] == request_of(
                within_quota(order, order.len())[i],
                words,
                windows,
                count,
                n,
            );
    let ob = choose|order: Seq<Tally>| #[trigger]
        tallies(order, words, count, n) && db == order.len() && b.len() == within_quota(
            order,
            order.len(),
        ).len() && forall|i: int|
            0 <= i < b.len() ==> #[trigger] b[i] == request_of(
                within_quota(order, order.len())[i],
                words,
                windows,
                count,
                n,
            );
    assert forall|t: Tally| oa.contains(t) <==> ob.contains(t) by {}
    lemma_same_sorted(oa, ob);
    assert(a =~= b);
}

/// Every volume keeps its most wanted chunks, up to the quota, however many votes others have.
pub proof fn lemma_each_volume_has_its_quota(order: Seq<Tally>, n: nat, vol: int)
    requires
        n <= order.len(),
    ensures
        of_volume(within_quota(order, n), within_quota(order, n).len(), vol) == (if of_volume(
            order,
            n,
            vol,
        ) < REQ_FEED_MAX {
            of_volume(order, n, vol) as int
        } else {
            REQ_FEED_MAX as int
        }),
    decreases n,
{
    if n > 0 {
        let m = (n - 1) as nat;
        lemma_each_volume_has_its_quota(order, m, vol);
        let rest = within_quota(order, m);
        let kept = within_quota(order, n);
        if kept.len() > rest.len() {
            assert(kept.drop_last() =~= rest);
            lemma_of_volume_prefix(kept, rest, rest.len(), vol);
        }
    }
}

proof fn lemma_of_volume_prefix(a: Seq<Tally>, b: Seq<Tally>, n: nat, vol: int)
    requires
        n <= a.len(),
        n <= b.len(),
        forall|i: int| 0 <= i < n ==> a[i] == b[i],
    ensures
        of_volume(a, n, vol) == of_volume(b, n, vol),
    decreases n,
{
    if n > 0 {
        lemma_of_volume_prefix(a, b, (n - 1) as nat, vol);
    }
}

/// Votes for the first `keys` keys.
pub open spec fn votes_below(words: Seq<u32>, count: u32, n: nat, keys: nat) -> nat
    decreases keys,
{
    if keys == 0 {
        0
    } else {
        votes_below(words, count, n, (keys - 1) as nat) + votes_for(words, count, n, keys - 1)
    }
}

/// Every request counts once.
pub proof fn lemma_every_request_counts(words: Seq<u32>, count: u32, n: nat)
    ensures
        votes_below(words, count, n, CELLS as nat) == n,
    decreases n,
{
    if n == 0 {
        lemma_votes_step(words, count, n, CELLS as nat);
    } else {
        lemma_every_request_counts(words, count, (n - 1) as nat);
        lemma_votes_step(words, count, n, CELLS as nat);
        lemma_word_bounds(ring_word(words, count, n - 1));
    }
}

proof fn lemma_votes_step(words: Seq<u32>, count: u32, n: nat, keys: nat)
    ensures
        n == 0 ==> votes_below(words, count, n, keys) == 0,
        n > 0 ==> votes_below(words, count, n, keys) == votes_below(
            words,
            count,
            (n - 1) as nat,
            keys,
        ) + (if 0 <= word_key(ring_word(words, count, n - 1)) < keys {
            1int
        } else {
            0
        }),
    decreases keys,
{
    if keys > 0 {
        lemma_votes_step(words, count, n, (keys - 1) as nat);
    }
}

/// A window position packed as `x + 64 y + 4096 z` reads back as that position, on all three axes,
/// and the chunk there lies that far from the window's origin.
pub proof fn lemma_window_position(origin: IVec3, x: int, y: int, z: int)
    requires
        window_fits(origin),
        0 <= x < 64,
        0 <= y < 64,
        0 <= z < 64,
    ensures
        unpack_rel(x + 64 * y + 4096 * z).x == x,
        unpack_rel(x + 64 * y + 4096 * z).y == y,
        unpack_rel(x + 64 * y + 4096 * z).z == z,
        chunk_at(origin, x + 64 * y + 4096 * z).x == origin.x + x,
        chunk_at(origin, x + 64 * y + 4096 * z).y == origin.y + y,
        chunk_at(origin, x + 64 * y + 4096 * z).z == origin.z + z,
{
}

/// Different window positions are different chunks.
pub proof fn lemma_window_positions_apart(origin: IVec3, a: int, b: int)
    requires
        window_fits(origin),
        0 <= a < 262144,
        0 <= b < 262144,
        chunk_at(origin, a) == chunk_at(origin, b),
    ensures
        a == b,
{
    let (x, y, z) = (a % 64, a / 64 % 64, a / 4096 % 64);
    let (u, v, w) = (b % 64, b / 64 % 64, b / 4096 % 64);
    assert(a == x + 64 * y + 4096 * z);
    assert(b == u + 64 * v + 4096 * w);
    lemma_window_position(origin, x, y, z);
    lemma_window_position(origin, u, v, w);
}

/// A request word made of a position below 2^18, a level, and a volume reads back as these, whatever
/// the bits between and above them hold.
pub proof fn lemma_request_word(w: u32, rel: u32, level: u32, vol: u32, spare: u32, rest: u32)
    requires
        rel < 262144,
        level < 4,
        vol < 4,
        spare < 2,
        rest < 512,
        w == rel + 262144 * level + 1048576 * spare + 2097152 * vol + 8388608 * rest,
    ensures
        word_level(w) == level,
        word_key(w) % 262144 == rel,
        word_key(w) / 262144 == vol,
{
    assert((w >> 18) & 3 == level && (w >> 21) & 3 == vol && w & 0x3_FFFF == rel) by (bit_vector)
        requires
            rel < 262144,
            level < 4,
            vol < 4,
            spare < 2,
            rest < 512,
            w == rel + 262144 * level + 1048576 * spare + 2097152 * vol + 8388608 * rest,
    ;
}

/// A difference of counters is what takes the earlier one to the later one, in 32 bits.
pub proof fn lemma_wrapped(a: u32, b: u32)
    ensures
        0 <= wrapped(a, b) <= u32::MAX,
        (b + wrapped(a, b)) % 0x1_0000_0000 == a,
{
}

/// The stamps of a reading are those that the counter showed from the last reading up to this one:
/// not the stamp about to be given, none that an earlier reading has taken, and never 0. The counter
/// may have passed its end meanwhile.
pub proof fn lemma_stamps_since(tick: u32, before: u32, s: u32)
    ensures
        ({
            let taken = in_span(tick, wrapped(tick, before) as u32, s);
            &&& before <= tick ==> (taken <==> s != 0 && before <= s < tick)
            &&& before > tick ==> (taken <==> s != 0 && (before <= s || s < tick))
        }),
{
}

/// One more request moves every earlier one a place back, up to the ring's length; the newest stands
/// at its number's place in the ring.
pub proof fn lemma_ring_moves_on(words: Seq<u32>, count: u32, k: int)
    requires
        count < u32::MAX,
    ensures
        ring_word(words, (count + 1) as u32, k + 1) == ring_word(words, count, k),
        ring_word(words, (count + 1) as u32, 0) == words[REQ_BASE + count as int % REQ_CAP as int],
        ring_word(words, count, k) == ring_word(words, count, k + REQ_CAP),
{
    assert((count - 1 - (k + REQ_CAP)) % 1048576 == (count - 1 - k) % 1048576);
}

/// The use of a volume's window position `k`.
spec fn use_at(words: Seq<u32>, origin: IVec3, vol: int, k: int) -> LodUse {
    LodUse {
        vol: vol as u8,
        chunk: chunk_at(origin, k),
        stamp: words[USE_BASE + vol * 262144 + k],
    }
}

proof fn lemma_use_is_listed(
    words: Seq<u32>,
    origin: IVec3,
    vol: int,
    tick: u32,
    span: u32,
    n: nat,
    k: int,
)
    requires
        0 <= k < n,
        in_span(tick, span, words[USE_BASE + vol * 262144 + k]),
    ensures
        uses_in(words, origin, vol, tick, span, n).contains(use_at(words, origin, vol, k)),
    decreases n,
{
    let m = (n - 1) as nat;
    let rest = uses_in(words, origin, vol, tick, span, m);
    let all = uses_in(words, origin, vol, tick, span, n);
    let u = use_at(words, origin, vol, k);
    if k < m {
        lemma_use_is_listed(words, origin, vol, tick, span, m, k);
        let i = choose|i: int| 0 <= i < rest.len() && rest[i] == u;
        assert(all[i] == u);
    } else {
        assert(all == rest.push(u));
        assert(all[all.len() - 1] == u);
    }
}

proof fn lemma_listed_use(
    words: Seq<u32>,
    origin: IVec3,
    vol: int,
    tick: u32,
    span: u32,
    n: nat,
    i: int,
) -> (k: int)
    requires
        0 <= i < uses_in(words, origin, vol, tick, span, n).len(),
    ensures
        0 <= k < n,
        in_span(tick, span, words[USE_BASE + vol * 262144 + k]),
        uses_in(words, origin, vol, tick, span, n)[i] == use_at(words, origin, vol, k),
    decreases n,
{
    let m = (n - 1) as nat;
    let rest = uses_in(words, origin, vol, tick, span, m);
    if i < rest.len() {
        lemma_listed_use(words, origin, vol, tick, span, m, i)
    } else {
        n - 1
    }
}

/// The use stamp of window position `(x, y, z)` of volume `vol`.
pub open spec fn stamp_of(words: Seq<u32>, vol: int, x: int, y: int, z: int) -> u32 {
    words[3 + 262144 * vol + x + 64 * y + 4096 * z]
}

/// The uses that are reported are the chunks whose stamps were given since the last reading: the
/// stamp of window position `(x, y, z)` speaks of the chunk `(x, y, z)` from the window's origin, in
/// each of the volumes that have a window, and nothing else is reported.
pub proof fn lemma_uses_are_stamps(
    words: Seq<u32>,
    windows: Seq<IVec3>,
    tick: u32,
    span: u32,
    nv: nat,
)
    requires
        nv <= windows.len(),
        nv <= 4,
        forall|i: int| 0 <= i < windows.len() ==> window_fits(#[trigger] windows[i]),
    ensures
        forall|vol: int, x: int, y: int, z: int|
            0 <= vol < nv && 0 <= x < 64 && 0 <= y < 64 && 0 <= z < 64 && in_span(
                tick,
                span,
                #[trigger] stamp_of(words, vol, x, y, z),
            ) ==> exists|i: int|
                0 <= i < uses_of(words, windows, tick, span, nv).len() && ({
                    let u = #[trigger] uses_of(words, windows, tick, span, nv)[i];
                    &&& u.vol == vol
                    &&& u.chunk.x == windows[vol].x + x
                    &&& u.chunk.y == windows[vol].y + y
                    &&& u.chunk.z == windows[vol].z + z
                    &&& u.stamp == stamp_of(words, vol, x, y, z)
                }),
        forall|i: int|
            0 <= i < uses_of(words, windows, tick, span, nv).len() ==> ({
                let u = #[trigger] uses_of(words, windows, tick, span, nv)[i];
                let o = windows[u.vol as int];
                let (x, y, z) = (u.chunk.x - o.x, u.chunk.y - o.y, u.chunk.z - o.z);
                &&& u.vol < nv
                &&& 0 <= x < 64 && 0 <= y < 64 && 0 <= z < 64
                &&& u.stamp == stamp_of(words, u.vol as int, x, y, z)
                &&& in_span(tick, span, u.stamp)
            }),
    decreases nv,
{
    if nv > 0 {
        let m = (nv - 1) as nat;
        lemma_uses_are_stamps(words, windows, tick, span, m);
        let rest = uses_of(words, windows, tick, span, m);
        let last = uses_in(words, windows[m as int], m as int, tick, span, 262144);
        let all = uses_of(words, windows, tick, span, nv);
        assert(all == rest + last);
        assert forall|vol: int, x: int, y: int, z: int|
            0 <= vol < nv && 0 <= x < 64 && 0 <= y < 64 && 0 <= z < 64 && in_span(
                tick,
                span,
                #[trigger] stamp_of(words, vol, x, y, z),
            ) implies exists|i: int|
            0 <= i < all.len() && ({
                let u = #[trigger] all[i];
                &&& u.vol == vol
                &&& u.chunk.x == windows[vol].x + x
                &&& u.chunk.y == windows[vol].y + y
                &&& u.chunk.z == windows[vol].z + z
                &&& u.stamp == stamp_of(words, vol, x, y, z)
            }) by {
            if vol < m {
                let i = choose|i: int|
                    0 <= i < rest.len() && ({
                        let u = #[trigger] rest[i];
                        &&& u.vol == vol
                        &&& u.chunk.x == windows[vol].x + x
                        &&& u.chunk.y == windows[vol].y + y
                        &&& u.chunk.z == windows[vol].z + z
                        &&& u.stamp == stamp_of(words, vol, x, y, z)
                    });
                assert(all[i] == rest[i]);
            } else {
                let k = x + 64 * y + 4096 * z;
                lemma_window_position(windows[vol], x, y, z);
                let u = use_at(words, windows[vol], vol, k);
                assert(words[USE_BASE + vol * 262144 + k] == stamp_of(words, vol, x, y, z));
                lemma_use_is_listed(words, windows[vol], vol, tick, span, 262144, k);
                let i = choose|i: int| 0 <= i < last.len() && last[i] == u;
                assert(all[rest.len() + i] == u);
            }
        }
        assert forall|i: int| 0 <= i < all.len() implies ({
            let u = #[trigger] all[i];
            let o = windows[u.vol as int];
            let (x, y, z) = (u.chunk.x - o.x, u.chunk.y - o.y, u.chunk.z - o.z);
            &&& u.vol < nv
            &&& 0 <= x < 64 && 0 <= y < 64 && 0 <= z < 64
            &&& u.stamp == stamp_of(words, u.vol as int, x, y, z)
            &&& in_span(tick, span, u.stamp)
        }) by {
            if i < rest.len() {
                assert(all[i] == rest[i]);
            } else {
                let j = i - rest.len();
                assert(all[i] == last[j]);
                let k = lemma_listed_use(
                    words,
                    windows[m as int],
                    m as int,
                    tick,
                    span,
                    262144,
                    j,
                );
                let (x, y, z) = (k % 64, k / 64 % 64, k / 4096 % 64);
                assert(k == x + 64 * y + 4096 * z);
                lemma_window_position(windows[m as int], x, y, z);
            }
        }
    }
}

proof fn lemma_finest_is_least(words: Seq<u32>, count: u32, n: nat, key: int)
    ensures
        finest_for(words, count, n, key) <= 3,
        forall|k: int|
            0 <= k < n && word_key(#[trigger] ring_word(words, count, k)) == key ==> finest_for(
                words,
                count,
                n,
                key,
            ) <= word_level(ring_word(words, count, k)),
        votes_for(words, count, n, key) > 0 ==> exists|k: int|
            0 <= k < n && word_key(#[trigger] ring_word(words, count, k)) == key && word_level(
                ring_word(words, count, k),
            ) == finest_for(words, count, n, key),
        forall|k: int|
            0 <= k < n && word_key(#[trigger] ring_word(words, count, k)) == key ==> votes_for(
                words,
                count,
                n,
                key,
            ) > 0,
    decreases n,
{
    if n > 0 {
        let m = (n - 1) as nat;
        lemma_finest_is_least(words, count, m, key);
        let w = ring_word(words, count, n - 1);
        lemma_word_bounds(w);
        if votes_for(words, count, m, key) > 0 && !(word_key(w) == key && word_level(w) < finest_for(
            words,
            count,
            m,
            key,
        )) {
            let k = choose|k: int|
                0 <= k < m && word_key(#[trigger] ring_word(words, count, k)) == key && word_level(
                    ring_word(words, count, k),
                ) == finest_for(words, count, m, key);
            assert(word_key(ring_word(words, count, k)) == key);
        } else if votes_for(words, count, m, key) == 0 && word_key(w) == key {
            lemma_unasked(words, count, m, key);
        }
    }
}

proof fn lemma_quota_keeps_order(order: Seq<Tally>, n: nat)
    requires
        n <= order.len(),
        ordered(order),
    ensures
        ordered(within_quota(order, n)),
        forall|i: int|
            0 <= i < within_quota(order, n).len() ==> exists|k: int|
                0 <= k < n && #[trigger] order[k] == #[trigger] within_quota(order, n)[i],
        forall|vol: int| #[trigger] of_volume(order, n, vol) <= n,
        n <= REQ_FEED_MAX ==> within_quota(order, n) == order.subrange(0, n as int),
    decreases n,
{
    if n > 0 {
        let m = (n - 1) as nat;
        lemma_quota_keeps_order(order, m);
        let rest = within_quota(order, m);
        let all = within_quota(order, n);
        let t = order[n - 1];
        assert(of_volume(order, m, t.key as int / 262144) <= m);
        assert forall|vol: int| #[trigger] of_volume(order, n, vol) <= n by {
            assert(of_volume(order, m, vol) <= m);
        }
        assert forall|i: int| 0 <= i < all.len() implies exists|k: int|
            0 <= k < n && #[trigger] order[k] == #[trigger] all[i] by {
            if i < rest.len() {
                let k = choose|k: int| 0 <= k < m && #[trigger] order[k] == rest[i];
                assert(order[k] == all[i]);
            } else {
                assert(order[n - 1] == all[i]);
            }
        }
        assert forall|i: int, j: int| 0 <= i < j < all.len() implies !(#[trigger] all[j]).before(
            #[trigger] all[i],
        ) by {
            let k = choose|k: int| 0 <= k < m && #[trigger] order[k] == rest[i];
            if j < rest.len() {
                assert(all[j] == rest[j] && all[i] == rest[i]);
            } else {
                assert(!order[n - 1].before(order[k]));
            }
        }
        if n <= REQ_FEED_MAX {
            assert(all =~= order.subrange(0, n as int));
        }
    } else {
        assert(within_quota(order, n) =~= order.subrange(0, 0));
    }
}

/// The kept tallies are different, and their keys name a volume and a window position.
proof fn lemma_kept_key(order: Seq<Tally>, words: Seq<u32>, count: u32, n: nat, i: int) -> (q: int)
    requires
        tallies(order, words, count, n),
        0 <= i < within_quota(order, order.len()).len(),
    ensures
        0 <= q < order.len(),
        order[q] == within_quota(order, order.len())[i],
        order[q].key < CELLS,
        forall|j: int|
            0 <= j < within_quota(order, order.len()).len() && j != i ==> #[trigger] within_quota(
                order,
                order.len(),
            )[j] != order[q],
{
    lemma_quota_keeps_order(order, order.len());
    lemma_quota_distinct(order, order.len());
    let kept = within_quota(order, order.len());
    let q = choose|q: int| 0 <= q < order.len() && #[trigger] order[q] == kept[i];
    let t = order[q];
    assert(order.contains(t));
    lemma_finest_is_least(words, count, n, t.key as int);
    let k = choose|k: int|
        0 <= k < n && word_key(#[trigger] ring_word(words, count, k)) == t.key as int && word_level(
            ring_word(words, count, k),
        ) == finest_for(words, count, n, t.key as int);
    lemma_word_bounds(ring_word(words, count, k));
    q
}

proof fn lemma_quota_distinct(order: Seq<Tally>, n: nat)
    requires
        n <= order.len(),
        ordered(order),
        order.no_duplicates(),
    ensures
        within_quota(order, n).no_duplicates(),
    decreases n,
{
    if n > 0 {
        let m = (n - 1) as nat;
        lemma_quota_distinct(order, m);
        lemma_quota_keeps_order(order, m);
        let rest = within_quota(order, m);
        assert forall|i: int| 0 <= i < rest.len() implies #[trigger] rest[i] != order[n - 1] by {
            let k = choose|k: int| 0 <= k < m && #[trigger] order[k] == rest[i];
            assert(order[k] != order[n - 1]);
        }
    }
}

proof fn lemma_key_parts(key: u32, windows: Seq<IVec3>)
    requires
        key < CELLS,
        windows.len() == VOLUMES,
        forall|i: int| 0 <= i < windows.len() ==> window_fits(#[trigger] windows[i]),
    ensures
        ({
            let vol = key as int / 262144;
            let c = chunk_at(windows[vol], key as int % 262144);
            let o = windows[vol];
            &&& 0 <= vol < 4
            &&& key == 262144 * vol + 4096 * (c.z - o.z) + 64 * (c.y - o.y) + (c.x - o.x)
            &&& 0 <= 4096 * (c.z - o.z) + 64 * (c.y - o.y) + (c.x - o.x) < 262144
        }),
{
    let (vol, rel) = (key as int / 262144, key as int % 262144);
    let (x, y, z) = (rel % 64, rel / 64 % 64, rel / 4096 % 64);
    assert(rel == x + 64 * y + 4096 * z);
    assert(window_fits(windows[vol]));
    lemma_window_position(windows[vol], x, y, z);
}

/// The merged requests come with the most votes first, those with as many by volume and then by their
/// place in the window, along `x` first and `z` last. Each speaks of a chunk in the window of its
/// volume, with as many votes as words of the ring asked for it, at least one, and at the finest level
/// that any of these asked for.
pub proof fn lemma_merged_requests(
    merged: Seq<LodRequest>,
    distinct: int,
    words: Seq<u32>,
    windows: Seq<IVec3>,
    count: u32,
    n: nat,
)
    requires
        is_merge(merged, distinct, words, windows, count, n),
        windows.len() == VOLUMES,
        forall|i: int| 0 <= i < windows.len() ==> window_fits(#[trigger] windows[i]),
    ensures
        forall|i: int, j: int|
            0 <= i < j < merged.len() ==> (#[trigger] merged[i]).votes >= (#[trigger] merged[j]).votes,
        forall|i: int, j: int|
            0 <= i < j < merged.len() && (#[trigger] merged[i]).votes == (#[trigger] merged[j]).votes ==> {
                let (a, b) = (merged[i], merged[j]);
                let (o, q) = (windows[a.vol as int], windows[b.vol as int]);
                a.vol < b.vol || (a.vol == b.vol && 4096 * (a.chunk.z - o.z) + 64 * (a.chunk.y - o.y)
                    + (a.chunk.x - o.x) < 4096 * (b.chunk.z - q.z) + 64 * (b.chunk.y - q.y) + (b.chunk.x
                    - q.x))
            },
        forall|i: int|
            0 <= i < merged.len() ==> ({
                let r = #[trigger] merged[i];
                let o = windows[r.vol as int];
                let (x, y, z) = (r.chunk.x - o.x, r.chunk.y - o.y, r.chunk.z - o.z);
                let key = 262144 * r.vol + x + 64 * y + 4096 * z;
                &&& r.vol < VOLUMES
                &&& 0 <= x < 64 && 0 <= y < 64 && 0 <= z < 64
                &&& r.votes >= 1
                &&& r.votes == votes_for(words, count, n, key)
                &&& forall|k: int|
                    0 <= k < n && word_key(#[trigger] ring_word(words, count, k)) == key ==> r.level
                        <= word_level(ring_word(words, count, k))
                &&& exists|k: int|
                    0 <= k < n && word_key(#[trigger] ring_word(words, count, k)) == key && r.level
                        == word_level(ring_word(words, count, k))
            }),
{
    let order = choose|order: Seq<Tally>| #[trigger]
        tallies(order, words, count, n) && distinct == order.len() && merged.len() == within_quota(
            order,
            order.len(),
        ).len() && forall|i: int|
            0 <= i < merged.len() ==> #[trigger] merged[i] == request_of(
                within_quota(order, order.len())[i],
                words,
                windows,
                count,
                n,
            );
    let kept = within_quota(order, order.len());
    lemma_quota_keeps_order(order, order.len());
    assert forall|i: int, j: int| 0 <= i < j < merged.len() implies (#[trigger] merged[i]).votes >= (
    #[trigger] merged[j]).votes by {
        assert(!kept[j].before(kept[i]));
    }
    assert forall|i: int| 0 <= i < merged.len() implies ({
        let r = #[trigger] merged[i];
        let o = windows[r.vol as int];
        let (x, y, z) = (r.chunk.x - o.x, r.chunk.y - o.y, r.chunk.z - o.z);
        let key = 262144 * r.vol + x + 64 * y + 4096 * z;
        &&& r.vol < VOLUMES
        &&& 0 <= x < 64 && 0 <= y < 64 && 0 <= z < 64
        &&& r.votes >= 1
        &&& r.votes == votes_for(words, count, n, key)
        &&& forall|k: int|
            0 <= k < n && word_key(#[trigger] ring_word(words, count, k)) == key ==> r.level
                <= word_level(ring_word(words, count, k))
        &&& exists|k: int|
            0 <= k < n && word_key(#[trigger] ring_word(words, count, k)) == key && r.level
                == word_level(ring_word(words, count, k))
    }) by {
        let q = choose|q: int| 0 <= q < order.len() && #[trigger] order[q] == kept[i];
        let t = order[q];
        assert(order.contains(t));
        let key = t.key as int;
        lemma_finest_is_least(words, count, n, key);
        let k = choose|k: int|
            0 <= k < n && word_key(#[trigger] ring_word(words, count, k)) == key && word_level(
                ring_word(words, count, k),
            ) == finest_for(words, count, n, key);
        lemma_word_bounds(ring_word(words, count, k));
        let rel = key % 262144;
        let (x, y, z) = (rel % 64, rel / 64 % 64, rel / 4096 % 64);
        assert(rel == x + 64 * y + 4096 * z);
        let vol = key / 262144;
        assert(key == 262144 * vol + rel);
        assert(0 <= vol < 4);
        assert(window_fits(windows[vol]));
        lemma_window_position(windows[vol], x, y, z);
        assert(merged[i] == request_of(t, words, windows, count, n));
    }
    assert forall|i: int, j: int|
        0 <= i < j < merged.len() && (#[trigger] merged[i]).votes == (#[trigger] merged[j]).votes implies ({
        let (a, b) = (merged[i], merged[j]);
        let (o, q) = (windows[a.vol as int], windows[b.vol as int]);
        a.vol < b.vol || (a.vol == b.vol && 4096 * (a.chunk.z - o.z) + 64 * (a.chunk.y - o.y) + (
        a.chunk.x - o.x) < 4096 * (b.chunk.z - q.z) + 64 * (b.chunk.y - q.y) + (b.chunk.x - q.x))
    }) by {
        lemma_kept_key(order, words, count, n, i);
        lemma_kept_key(order, words, count, n, j);
        assert(!kept[j].before(kept[i]));
        assert(kept[i] != kept[j]);
        lemma_key_parts(kept[i].key, windows);
        lemma_key_parts(kept[j].key, windows);
    }
}

/// A ray that asks for level `level` of the chunk at `(x, y, z)` from the origin of volume `vol`, in
/// one of the `n` newest words of the ring, is heard: unless more chunks are asked for than one volume
/// may have, that chunk is among the merged requests, at that level or a finer one.
pub proof fn lemma_request_is_heard(
    merged: Seq<LodRequest>,
    distinct: int,
    words: Seq<u32>,
    windows: Seq<IVec3>,
    count: u32,
    n: nat,
    k: int,
    x: u32,
    y: u32,
    z: u32,
    level: u32,
    vol: u32,
)
    requires
        is_merge(merged, distinct, words, windows, count, n),
        distinct <= REQ_FEED_MAX,
        n <= REQ_CAP,
        vol < windows.len(),
        windows.len() <= VOLUMES,
        forall|i: int| 0 <= i < windows.len() ==> window_fits(#[trigger] windows[i]),
        0 <= k < n,
        x < 64 && y < 64 && z < 64 && level < 4,
        words[REQ_BASE + (count - 1 - k) % REQ_CAP as int] == x + 64 * y + 4096 * z + 262144 * level
            + 2097152 * vol,
    ensures
        exists|i: int|
            0 <= i < merged.len() && ({
                let r = #[trigger] merged[i];
                &&& r.vol == vol
                &&& r.chunk.x == windows[vol as int].x + x
                &&& r.chunk.y == windows[vol as int].y + y
                &&& r.chunk.z == windows[vol as int].z + z
                &&& r.level <= level
            }),
{
    let order = choose|order: Seq<Tally>| #[trigger]
        tallies(order, words, count, n) && distinct == order.len() && merged.len() == within_quota(
            order,
            order.len(),
        ).len() && forall|i: int|
            0 <= i < merged.len() ==> #[trigger] merged[i] == request_of(
                within_quota(order, order.len())[i],
                words,
                windows,
                count,
                n,
            );
    lemma_quota_keeps_order(order, order.len());
    assert(within_quota(order, order.len()) =~= order);
    let w = ring_word(words, count, k);
    let rel = (x + 64 * y + 4096 * z) as u32;
    lemma_request_word(w, rel, level, vol, 0, 0);
    let key = word_key(w);
    lemma_finest_is_least(words, count, n, key);
    lemma_votes_bound(words, count, n, key);
    let t = Tally { key: key as u32, votes: votes_for(words, count, n, key) as u32 };
    lemma_word_bounds(w);
    assert(order.contains(t));
    let i = choose|i: int| 0 <= i < order.len() && order[i] == t;
    lemma_window_position(windows[vol as int], x as int, y as int, z as int);
    assert(merged[i] == request_of(order[i], words, windows, count, n));
}

proof fn lemma_votes_bound(words: Seq<u32>, count: u32, n: nat, key: int)
    ensures
        votes_for(words, count, n, key) <= n,
    decreases n,
{
    if n > 0 {
        lemma_votes_bound(words, count, (n - 1) as nat, key);
    }
}

proof fn lemma_nothing_merged(
    merged: Seq<LodRequest>,
    distinct: int,
    words: Seq<u32>,
    windows: Seq<IVec3>,
    count: u32,
)
    requires
        is_merge(merged, distinct, words, windows, count, 0),
    ensures
        merged.len() == 0,
        distinct == 0,
{
    let order = choose|order: Seq<Tally>| #[trigger]
        tallies(order, words, count, 0) && distinct == order.len() && merged.len() == within_quota(
            order,
            order.len(),
        ).len() && forall|i: int|
            0 <= i < merged.len() ==> #[trigger] merged[i] == request_of(
                within_quota(order, order.len())[i],
                words,
                windows,
                count,
                0,
            );
    if order.len() > 0 {
        assert(order.contains(order[0]));
    }
}

/// The first reading, and one that finds the counters where the last one left them, report nothing.
pub proof fn lemma_quiet_readings(
    last: Option<(u32, u32)>,
    words: Seq<u32>,
    windows: Seq<IVec3>,
    r: RequestReport,
)
    requires
        reported(last, words, windows, r),
        last is None || last == Some((words[0], words[2])),
    ensures
        r.used.len() == 0,
        r.merged.len() == 0,
        r.distinct == 0,
        r.fresh == 0,
        r.lost == 0,
{
    lemma_nothing_merged(r.merged@, r.distinct as int, words, windows, words[0]);
}

/// A reading reports the chunks whose stamps were given since the last one, of every volume that has a
/// window, and counts the requests made since: what the ring could not keep is lost, and the rest is
/// merged.
pub proof fn lemma_readings(
    before: (u32, u32),
    words: Seq<u32>,
    windows: Seq<IVec3>,
    r: RequestReport,
    vol: int,
    x: int,
    y: int,
    z: int,
)
    requires
        reported(Some(before), words, windows, r),
        before.1 <= words[2],
        before.0 <= words[0],
        windows.len() <= VOLUMES,
        forall|i: int| 0 <= i < windows.len() ==> window_fits(#[trigger] windows[i]),
        0 <= vol < windows.len(),
        0 <= x < 64 && 0 <= y < 64 && 0 <= z < 64,
    ensures
        ({
            let s = stamp_of(words, vol, x, y, z);
            s != 0 && before.1 <= s < words[2] ==> exists|i: int|
                0 <= i < r.used.len() && ({
                    let u = #[trigger] r.used@[i];
                    &&& u.vol == vol
                    &&& u.chunk.x == windows[vol].x + x
                    &&& u.chunk.y == windows[vol].y + y
                    &&& u.chunk.z == windows[vol].z + z
                    &&& u.stamp == s
                })
        }),
        r.fresh == words[0] - before.0,
        r.lost <= r.fresh,
        r.fresh - r.lost <= REQ_CAP,
        r.lost > 0 ==> r.fresh - r.lost == REQ_CAP,
{
    let span = wrapped(words[2], before.1);
    let s = stamp_of(words, vol, x, y, z);
    if s != 0 && before.1 <= s < words[2] {
        lemma_stamps_since(words[2], before.1, s);
        lemma_uses_are_stamps(words, windows, words[2], span as u32, windows.len());
        let i = choose|i: int|
            0 <= i < uses_of(words, windows, words[2], span as u32, windows.len()).len() && ({
                let u = #[trigger] uses_of(words, windows, words[2], span as u32, windows.len())[i];
                &&& u.vol == vol
                &&& u.chunk.x == windows[vol].x + x
                &&& u.chunk.y == windows[vol].y + y
                &&& u.chunk.z == windows[vol].z + z
                &&& u.stamp == stamp_of(words, vol, x, y, z)
            });
        assert(r.used@[i].vol == vol);
    }
}

} // verus!
