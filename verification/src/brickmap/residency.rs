//! Which chunks should be resident, and at which level of detail.
//!
//! The decision knows nothing of buffers: it reads what is resident (bytes, level, last use, pins),
//! the camera's chunk and the wanted levels, and answers what to install and what to evict.
//!
//! Rules: an edited chunk is pinned for a while (neither evicted nor made coarser); a chunk stays
//! for a minimum time once installed; installs per frame are limited, nearest first; without a budget
//! nothing is evicted, with one the least recently used goes first.

use super::coord_map::CoordMap;
use super::wire::{BRICK_FACTOR, CHUNK_SIZE};
use crate::math::{lex_less, ChunkCoord, IVec3};
use crate::sort::{ordered, sorted, Ranked};
use vstd::prelude::*;

verus! {

/// Level of detail: voxels per edge below which a chunk's tree is cut off (4 keeps everything).
pub type Level = i32;

/// Levels of the ladder, coarsest first.
pub open spec fn ladder_level(i: int) -> Level {
    if i == 0 {
        256
    } else if i == 1 {
        64
    } else if i == 2 {
        16
    } else {
        4
    }
}

/// Steps of the ladder.
pub const LADDER_STEPS: usize = 4;

/// A step of the ladder: its level and the least pixel footprint, in voxels, that allows it.
pub fn ladder_step(i: usize) -> (r: (Level, u32))
    requires
        i < LADDER_STEPS,
    ensures
        r.0 == ladder_level(i as int),
        r.1 == level_threshold(r.0),
{
    if i == 0 {
        (CHUNK_SIZE, 64)
    } else if i == 1 {
        (64, 16)
    } else if i == 2 {
        (16, 4)
    } else {
        (BRICK_FACTOR, 0)
    }
}

/// The least footprint that allows a level: a quarter of it, none for the finest and for levels that
/// are not on the ladder.
pub open spec fn level_threshold(level: Level) -> u32 {
    if level == 256 {
        64
    } else if level == 64 {
        16
    } else if level == 16 {
        4
    } else {
        0
    }
}

/// The least footprint that allows a level.
pub fn threshold_of(level: Level) -> (r: u32)
    ensures
        r == level_threshold(level),
{
    let mut i: usize = 0;
    while i < LADDER_STEPS
        invariant
            i <= LADDER_STEPS,
            forall|j: int| 0 <= j < i ==> level != #[trigger] ladder_level(j),
        decreases LADDER_STEPS - i,
    {
        let (l, t) = ladder_step(i);
        if l == level {
            return t;
        }
        i += 1;
    }
    proof {
        assert(level != ladder_level(0) && level != ladder_level(1) && level != ladder_level(2)
            && level != ladder_level(3));
    }
    0
}

/// The coarsest level that the footprint allows; `reached[i]` says that it reaches step `i`.
pub fn raw_level(reached: [bool; 4]) -> (r: Level)
    ensures
        r == (if reached[0] {
            ladder_level(0)
        } else if reached[1] {
            ladder_level(1)
        } else if reached[2] {
            ladder_level(2)
        } else {
            ladder_level(3)
        }),
{
    let mut i: usize = 0;
    while i < LADDER_STEPS
        invariant
            i <= LADDER_STEPS,
            forall|j: int| 0 <= j < i ==> !#[trigger] reached[j],
        decreases LADDER_STEPS - i,
    {
        if reached[i] {
            return ladder_step(i).0;
        }
        i += 1;
    }
    proof {
        assert(!reached[0] && !reached[1] && !reached[2] && !reached[3]);
    }
    BRICK_FACTOR
}

/// The level to have: a coarser one at once, a finer one only once the footprint has left the band
/// below the current level's threshold (`left_band`).
pub fn settle_level(raw: Level, cur_level: Level, left_band: bool) -> (r: Level)
    ensures
        r == (if raw >= cur_level || left_band {
            raw
        } else {
            cur_level
        }),
{
    if raw >= cur_level {
        return raw;
    }
    if left_band {
        raw
    } else {
        cur_level
    }
}

/// What is known of a resident chunk.
#[derive(Debug, Clone, Copy, PartialEq, Eq, Structural)]
pub struct Entry {
    /// Bytes of its block.
    pub bytes: usize,
    pub level: Level,
    /// Last frame in which it was needed: in sight, installed or edited.
    pub last_use: u64,
    /// Last frame in which it is pinned.
    pub pinned_until: u64,
    /// Frame in which it became resident.
    pub since: u64,
}

/// What is known of a resident chunk once it is reported again: another level means that it was
/// installed anew in frame `frame`.
pub open spec fn noted(e: Entry, bytes: usize, level: Level, frame: u64) -> Entry {
    Entry {
        bytes,
        level,
        last_use: if level != e.level && e.last_use < frame {
            frame
        } else {
            e.last_use
        },
        ..e
    }
}

/// Parameters of the decision.
#[derive(Debug, Clone, Copy, PartialEq, Eq, Structural)]
pub struct ResidencyPolicy {
    /// Bytes that may be resident; 0 is no limit.
    pub budget_bytes: usize,
    /// Frames that a chunk stays at least.
    pub min_resident_frames: u64,
    /// Frames that an edit pins a chunk.
    pub pin_frames: u64,
    /// Installs per frame.
    pub max_install_per_frame: usize,
}

impl Default for ResidencyPolicy {
    fn default() -> (r: Self)
        ensures
            r.budget_bytes == 0,
            r.min_resident_frames == 30,
            r.pin_frames == 120,
            r.max_install_per_frame == 2,
    {
        ResidencyPolicy {
            budget_bytes: 0,
            min_resident_frames: 30,
            pin_frames: 120,
            max_install_per_frame: 2,
        }
    }
}

impl ResidencyPolicy {
    /// There is no limit.
    pub fn budget_is_off(&self) -> (r: bool)
        ensures
            r == (self.budget_bytes == 0),
    {
        self.budget_bytes == 0
    }
}

/// What to do this frame.
#[derive(Debug)]
pub struct ResidencyPlan {
    /// Chunks to install, with their level, nearest first.
    pub install: Vec<(ChunkCoord, Level)>,
    /// Chunks to evict, least recently used first.
    pub evict: Vec<ChunkCoord>,
}

/// Distance on one axis.
pub open spec fn gap(a: int, b: int) -> int {
    if a >= b {
        a - b
    } else {
        b - a
    }
}

/// Largest distance over the axes.
pub open spec fn chebyshev(a: IVec3, b: IVec3) -> int {
    let (x, y, z) = (gap(a.x as int, b.x as int), gap(a.y as int, b.y as int), gap(a.z as int, b.z as int));
    if x >= y && x >= z {
        x
    } else if y >= z {
        y
    } else {
        z
    }
}

fn axis_gap(a: i32, b: i32) -> (r: u32)
    ensures
        r == gap(a as int, b as int),
{
    if a >= b {
        (a as i64 - b as i64) as u32
    } else {
        (b as i64 - a as i64) as u32
    }
}

fn distance(a: IVec3, b: IVec3) -> (r: u32)
    ensures
        r == chebyshev(a, b),
{
    let (x, y, z): (u32, u32, u32) = (axis_gap(a.x, b.x), axis_gap(a.y, b.y), axis_gap(a.z, b.z));
    if x >= y && x >= z {
        x
    } else if y >= z {
        y
    } else {
        z
    }
}

/// Distance between chunks: the largest over the axes.
pub fn chunk_distance(a: IVec3, b: IVec3) -> (r: i32)
    requires
        chebyshev(a, b) <= i32::MAX,
    ensures
        r == chebyshev(a, b),
{
    distance(a, b) as i32
}

/// A wanted chunk with its distance.
#[derive(Debug, Clone, Copy, PartialEq, Eq, Structural)]
pub struct Want {
    pub chunk: ChunkCoord,
    pub level: Level,
    pub dist: u32,
}

impl Ranked for Want {
    /// Nearest first, then coarsest, then by coordinate.
    open spec fn before(self, o: Self) -> bool {
        self.dist < o.dist || (self.dist == o.dist && (self.level > o.level || (self.level == o.level
            && lex_less(self.chunk.0, o.chunk.0))))
    }

    fn is_before(&self, o: &Self) -> (r: bool) {
        self.dist < o.dist || (self.dist == o.dist && (self.level > o.level || (self.level == o.level
            && self.chunk.0.lex_lt(o.chunk.0))))
    }

    proof fn law(a: Self, b: Self, c: Self) {
    }
}

/// A resident chunk in order of use.
#[derive(Debug, Clone, Copy, PartialEq, Eq, Structural)]
pub struct Used {
    pub chunk: ChunkCoord,
    pub entry: Entry,
}

impl Ranked for Used {
    /// Least recently used first, then by coordinate.
    open spec fn before(self, o: Self) -> bool {
        self.entry.last_use < o.entry.last_use || (self.entry.last_use == o.entry.last_use && lex_less(
            self.chunk.0,
            o.chunk.0,
        ))
    }

    fn is_before(&self, o: &Self) -> (r: bool) {
        self.entry.last_use < o.entry.last_use || (self.entry.last_use == o.entry.last_use
            && self.chunk.0.lex_lt(o.chunk.0))
    }

    proof fn law(a: Self, b: Self, c: Self) {
    }
}

/// The wanted chunks that need an install.
pub open spec fn needed(
    book: Map<ChunkCoord, Entry>,
    frame: u64,
    camera: IVec3,
    wants: Seq<(ChunkCoord, Level)>,
) -> Seq<Want>
    decreases wants.len(),
{
    if wants.len() == 0 {
        Seq::empty()
    } else {
        let (c, level) = wants.last();
        let rest = needed(book, frame, camera, wants.drop_last());
        if needs_install(book, frame, c, level) {
            rest.push(Want { chunk: c, level, dist: chebyshev(camera, c.0) as u32 })
        } else {
            rest
        }
    }
}

/// Chunk `c` is to be installed at `level`: it is not resident at that level, and does not become
/// coarser while it is pinned.
pub open spec fn needs_install(
    book: Map<ChunkCoord, Entry>,
    frame: u64,
    c: ChunkCoord,
    level: Level,
) -> bool {
    !book.dom().contains(c) || (book[c].level != level && !(book[c].level < level
        && book[c].pinned_until >= frame))
}

/// Chunk `c` may be evicted: not to be kept, not pinned, and resident for long enough.
pub open spec fn may_evict(
    u: Used,
    frame: u64,
    min_frames: u64,
    must_keep: Seq<ChunkCoord>,
) -> bool {
    &&& !must_keep.contains(u.chunk)
    &&& u.entry.pinned_until < frame
    &&& frame - u.entry.since >= min_frames || min_frames == 0
}

/// The chunks to evict, in order, from the first `n` of `order`, and how many bytes are over the
/// budget after them.
pub open spec fn evict_walk(
    order: Seq<Used>,
    n: int,
    over: int,
    frame: u64,
    min_frames: u64,
    must_keep: Seq<ChunkCoord>,
) -> (Seq<ChunkCoord>, int)
    decreases n,
{
    if n <= 0 {
        (Seq::empty(), over)
    } else {
        let (out, left) = evict_walk(order, n - 1, over, frame, min_frames, must_keep);
        let u = order[n - 1];
        if left > 0 && may_evict(u, frame, min_frames, must_keep) {
            (
                out.push(u.chunk),
                if left > u.entry.bytes {
                    left - u.entry.bytes
                } else {
                    0
                },
            )
        } else {
            (out, left)
        }
    }
}

/// `order` lists the book, least recently used first.
pub open spec fn lists_book(order: Seq<Used>, book: Map<ChunkCoord, Entry>) -> bool {
    &&& ordered(order)
    &&& order.no_duplicates()
    &&& forall|u: Used| #[trigger]
        order.contains(u) <==> book.dom().contains(u.chunk) && book[u.chunk] == u.entry
}

/// Bytes of all entries.
pub open spec fn bytes_of(items: Seq<(ChunkCoord, Entry)>) -> int
    decreases items.len(),
{
    if items.len() == 0 {
        0
    } else {
        bytes_of(items.drop_last()) + items.last().1.bytes
    }
}

fn holds(v: &Vec<ChunkCoord>, c: ChunkCoord) -> (r: bool)
    ensures
        r == v@.contains(c),
{
    let mut i: usize = 0;
    while i < v.len()
        invariant
            i <= v.len(),
            forall|j: int| 0 <= j < i ==> v@[j] != c,
        decreases v.len() - i,
    {
        if v[i] == c {
            assert(v@[i as int] == c);
            return true;
        }
        i += 1;
    }
    false
}

/// What is resident, frame by frame.
#[derive(Debug)]
pub struct Residency {
    entries: CoordMap<Entry>,
    frame: u64,
}

impl Residency {
    pub closed spec fn wf(&self) -> bool {
        self.entries.wf()
    }

    /// The resident chunks.
    pub closed spec fn book(&self) -> Map<ChunkCoord, Entry> {
        Map::new(|c: ChunkCoord| self.entries.has(c), |c: ChunkCoord| self.entries.at(c))
    }

    /// The current frame.
    pub closed spec fn now(&self) -> u64 {
        self.frame
    }

    /// Bytes of all resident chunks.
    pub closed spec fn total(&self) -> int {
        bytes_of(self.entries.items())
    }

    /// Bytes of chunk `c`; 0 when it is not resident.
    pub open spec fn bytes_at(&self, c: ChunkCoord) -> int {
        if self.book().dom().contains(c) {
            self.book()[c].bytes as int
        } else {
            0
        }
    }

    pub fn new() -> (r: Self)
        ensures
            r.wf(),
            r.book() == Map::<ChunkCoord, Entry>::empty(),
            r.now() == 0,
            r.total() == 0,
    {
        let r: Self = Residency { entries: CoordMap::new(), frame: 0 };
        assert(r.book() =~= Map::<ChunkCoord, Entry>::empty());
        r
    }

    pub fn frame(&self) -> (r: u64)
        ensures
            r == self.now(),
    {
        self.frame
    }

    /// Sets the current frame.
    pub fn tick(&mut self, frame: u64)
        requires
            old(self).wf(),
        ensures
            final(self).wf(),
            final(self).now() == frame,
            final(self).book() == old(self).book(),
            final(self).total() == old(self).total(),
    {
        self.frame = frame;
    }

    pub fn resident_count(&self) -> (r: usize)
        requires
            self.wf(),
        ensures
            r == self.book().dom().len(),
    {
        proof {
            self.entries.lemma_count(self.book().dom());
        }
        self.entries.len()
    }

    pub fn resident_bytes(&self) -> (r: usize)
        requires
            self.wf(),
            self.total() <= usize::MAX,
        ensures
            r == self.total(),
    {
        let n: usize = self.entries.len();
        let ghost items = self.entries.items();
        let mut sum: usize = 0;
        let mut i: usize = 0;
        while i < n
            invariant
                i <= n,
                n == items.len(),
                items == self.entries.items(),
                bytes_of(items) <= usize::MAX,
                sum == bytes_of(items.subrange(0, i as int)),
            decreases n - i,
        {
            proof {
                assert(items.subrange(0, i + 1).drop_last() =~= items.subrange(0, i as int));
                assert(items.subrange(0, i + 1).last() == items[i as int]);
                lemma_bytes_prefix(items, i + 1);
            }
            sum = sum + self.entries.entry(i).1.bytes;
            i += 1;
        }
        assert(items.subrange(0, n as int) =~= items);
        sum
    }

    pub fn is_resident(&self, c: ChunkCoord) -> (r: bool)
        requires
            self.wf(),
        ensures
            r == self.book().dom().contains(c),
    {
        self.entries.contains_key(c)
    }

    /// The level of a resident chunk.
    pub fn resident_level(&self, c: ChunkCoord) -> (r: Option<Level>)
        requires
            self.wf(),
        ensures
            r == (if self.book().dom().contains(c) {
                Some(self.book()[c].level)
            } else {
                None
            }),
    {
        match self.entries.get(c) {
            Some(e) => Some(e.level),
            None => None,
        }
    }

    /// Chunk `c` is resident with these bytes at this level.
    ///
    /// A chunk that was not resident, or was at another level, has been installed in this frame,
    /// which counts as a use. A report at the level it has only updates the bytes.
    pub fn note_resident(&mut self, c: ChunkCoord, bytes: usize, level: Level, frame: u64)
        requires
            old(self).wf(),
        ensures
            final(self).wf(),
            final(self).now() == old(self).now(),
            final(self).book() == old(self).book().insert(
                c,
                (if old(self).book().dom().contains(c) {
                    noted(old(self).book()[c], bytes, level, frame)
                } else {
                    Entry { bytes, level, last_use: frame, pinned_until: 0, since: frame }
                }),
            ),
            final(self).total() == old(self).total() - old(self).bytes_at(c) + bytes,
    {
        match self.entries.find(c) {
            Some(i) => {
                let ghost o = self.entries;
                let e: &mut Entry = self.entries.value_mut(i);
                if e.level != level && e.last_use < frame {
                    e.last_use = frame;
                }
                e.bytes = bytes;
                e.level = level;
                proof {
                    self.entries.lemma_updated(&o, i as int, self.entries.items()[i as int].1);
                    lemma_bytes_update(o.items(), i as int, self.entries.items()[i as int]);
                }
            },
            None => {
                let ghost it = self.entries.items();
                let e: Entry = Entry {
                    bytes,
                    level,
                    last_use: frame,
                    pinned_until: 0,
                    since: frame,
                };
                self.entries.insert(c, e);
                proof {
                    let i = choose|i: int|
                        0 <= i <= it.len() && self.entries.items() == #[trigger] it.insert(i, (c, e));
                    lemma_bytes_insert(it, i, (c, e));
                }
            },
        }
        proof {
            assert(self.book() =~= old(self).book().insert(
                c,
                (if old(self).book().dom().contains(c) {
                    noted(old(self).book()[c], bytes, level, frame)
                } else {
                    Entry { bytes, level, last_use: frame, pinned_until: 0, since: frame }
                }),
            ));
        }
    }

    /// Chunk `c` is not resident any more.
    pub fn note_gone(&mut self, c: ChunkCoord)
        requires
            old(self).wf(),
        ensures
            final(self).wf(),
            final(self).now() == old(self).now(),
            final(self).book() == old(self).book().remove(c),
            final(self).total() == old(self).total() - old(self).bytes_at(c),
    {
        let ghost o = self.entries;
        let _ = self.entries.remove(c);
        proof {
            if o.has(c) {
                lemma_bytes_remove(o.items(), o.index_of(c));
            }
        }
        assert(self.book() =~= old(self).book().remove(c));
    }

    /// The bytes of chunk `c`, if it is resident.
    pub fn note_bytes(&mut self, c: ChunkCoord, bytes: usize)
        requires
            old(self).wf(),
        ensures
            final(self).wf(),
            final(self).now() == old(self).now(),
            final(self).book() == (if old(self).book().dom().contains(c) {
                old(self).book().insert(c, Entry { bytes, ..old(self).book()[c] })
            } else {
                old(self).book()
            }),
            final(self).total() == (if old(self).book().dom().contains(c) {
                old(self).total() - old(self).bytes_at(c) + bytes
            } else {
                old(self).total()
            }),
    {
        if let Some(i) = self.entries.find(c) {
            let ghost o = self.entries;
            let e: &mut Entry = self.entries.value_mut(i);
            e.bytes = bytes;
            proof {
                self.entries.lemma_updated(&o, i as int, self.entries.items()[i as int].1);
                lemma_bytes_update(o.items(), i as int, self.entries.items()[i as int]);
                assert(self.book() =~= old(self).book().insert(
                    c,
                    Entry { bytes, ..old(self).book()[c] },
                ));
            }
        }
    }

    /// Chunk `c` was needed in `frame`.
    pub fn note_use(&mut self, c: ChunkCoord, frame: u64)
        requires
            old(self).wf(),
        ensures
            final(self).wf(),
            final(self).now() == old(self).now(),
            final(self).book() == (if old(self).book().dom().contains(c) {
                let e = old(self).book()[c];
                old(self).book().insert(
                    c,
                    Entry {
                        last_use: if e.last_use >= frame {
                            e.last_use
                        } else {
                            frame
                        },
                        ..e
                    },
                )
            } else {
                old(self).book()
            }),
            final(self).total() == old(self).total(),
    {
        if let Some(i) = self.entries.find(c) {
            let ghost o = self.entries;
            let e: &mut Entry = self.entries.value_mut(i);
            if e.last_use < frame {
                e.last_use = frame;
            }
            proof {
                self.entries.lemma_updated(&o, i as int, self.entries.items()[i as int].1);
                lemma_bytes_update(o.items(), i as int, self.entries.items()[i as int]);
                let e0 = old(self).book()[c];
                assert(self.book() =~= old(self).book().insert(
                    c,
                    Entry {
                        last_use: if e0.last_use >= frame {
                            e0.last_use
                        } else {
                            frame
                        },
                        ..e0
                    },
                ));
            }
        }
    }

    /// Chunk `c` was edited in `frame`: it is pinned for `pin_frames` frames.
    pub fn note_edit(&mut self, c: ChunkCoord, frame: u64, pin_frames: u64)
        requires
            old(self).wf(),
            frame + pin_frames <= u64::MAX,
        ensures
            final(self).wf(),
            final(self).now() == old(self).now(),
            final(self).book() == (if old(self).book().dom().contains(c) {
                let e = old(self).book()[c];
                old(self).book().insert(
                    c,
                    Entry {
                        last_use: if e.last_use >= frame {
                            e.last_use
                        } else {
                            frame
                        },
                        pinned_until: if e.pinned_until >= frame + pin_frames {
                            e.pinned_until
                        } else {
                            (frame + pin_frames) as u64
                        },
                        ..e
                    },
                )
            } else {
                old(self).book()
            }),
            final(self).total() == old(self).total(),
    {
        let until: u64 = frame + pin_frames;
        if let Some(i) = self.entries.find(c) {
            let ghost o = self.entries;
            let e: &mut Entry = self.entries.value_mut(i);
            if e.pinned_until < until {
                e.pinned_until = until;
            }
            if e.last_use < frame {
                e.last_use = frame;
            }
            proof {
                self.entries.lemma_updated(&o, i as int, self.entries.items()[i as int].1);
                lemma_bytes_update(o.items(), i as int, self.entries.items()[i as int]);
                let e0 = old(self).book()[c];
                assert(self.book() =~= old(self).book().insert(
                    c,
                    Entry {
                        last_use: if e0.last_use >= frame {
                            e0.last_use
                        } else {
                            frame
                        },
                        pinned_until: if e0.pinned_until >= frame + pin_frames {
                            e0.pinned_until
                        } else {
                            (frame + pin_frames) as u64
                        },
                        ..e0
                    },
                ));
            }
        }
    }

    /// Decides what to install and what to evict.
    ///
    /// `wants` are the wanted chunks with their levels; chunks of `must_keep` are not evicted.
    pub fn plan(
        &self,
        policy: &ResidencyPolicy,
        camera_chunk: IVec3,
        wants: &Vec<(ChunkCoord, Level)>,
        must_keep: &Vec<ChunkCoord>,
    ) -> (r: ResidencyPlan)
        requires
            self.wf(),
            self.total() <= usize::MAX,
        ensures
            is_install_list(r.install@, self.book(), self.now(), camera_chunk, wants@, *policy),
            is_evict_list(r.evict@, self.book(), self.now(), self.total(), *policy, must_keep@),
    {
        let ghost book = self.book();
        let mut need: Vec<Want> = Vec::new();
        let mut i: usize = 0;
        while i < wants.len()
            invariant
                i <= wants.len(),
                self.wf(),
                book == self.book(),
                need@ == needed(book, self.frame, camera_chunk, wants@.subrange(0, i as int)),
            decreases wants.len() - i,
        {
            let (c, level) = wants[i];
            proof {
                assert(wants@.subrange(0, i + 1).drop_last() =~= wants@.subrange(0, i as int));
                assert(wants@.subrange(0, i + 1).last() == wants@[i as int]);
            }
            let take: bool = match self.entries.get(c) {
                None => true,
                Some(e) => e.level != level && !(e.level < level && e.pinned_until >= self.frame),
            };
            if take {
                need.push(Want { chunk: c, level, dist: distance(camera_chunk, c.0) });
            }
            i += 1;
        }
        assert(wants@.subrange(0, wants@.len() as int) =~= wants@);
        let order: Vec<Want> = sorted(&need);
        let mut install: Vec<(ChunkCoord, Level)> = Vec::new();
        i = 0;
        while i < order.len() && i < policy.max_install_per_frame
            invariant
                i <= order.len(),
                i <= policy.max_install_per_frame,
                install.len() == i,
                forall|j: int|
                    0 <= j < i ==> #[trigger] install@[j] == (order@[j].chunk, order@[j].level),
            decreases order.len() - i,
        {
            install.push((order[i].chunk, order[i].level));
            i += 1;
        }
        proof {
            assert(is_install_order(
                order@,
                install@,
                book,
                self.frame,
                camera_chunk,
                wants@,
                *policy,
            ));
        }
        let evict: Vec<ChunkCoord> = self.pick_evicts(policy, must_keep);
        ResidencyPlan { install, evict }
    }

    /// The chunks to evict: none within the budget or without one.
    fn pick_evicts(&self, policy: &ResidencyPolicy, must_keep: &Vec<ChunkCoord>) -> (out: Vec<
        ChunkCoord,
    >)
        requires
            self.wf(),
            self.total() <= usize::MAX,
        ensures
            is_evict_list(out@, self.book(), self.now(), self.total(), *policy, must_keep@),
    {
        let ghost book = self.book();
        let bytes: usize = self.resident_bytes();
        let mut used: Vec<Used> = Vec::new();
        let n: usize = self.entries.len();
        let ghost items = self.entries.items();
        let mut i: usize = 0;
        while i < n
            invariant
                i <= n,
                n == items.len(),
                items == self.entries.items(),
                used.len() == i,
                forall|j: int|
                    0 <= j < i ==> #[trigger] used@[j] == (Used {
                        chunk: items[j].0,
                        entry: items[j].1,
                    }),
            decreases n - i,
        {
            let (c, e) = self.entries.entry(i);
            used.push(Used { chunk: *c, entry: *e });
            i += 1;
        }
        let order: Vec<Used> = sorted(&used);
        proof {
            self.lemma_lists(used@, order@);
        }
        if policy.budget_is_off() || bytes <= policy.budget_bytes {
            return Vec::new();
        }
        let over0: usize = bytes - policy.budget_bytes;
        let mut over: usize = over0;
        let mut out: Vec<ChunkCoord> = Vec::new();
        i = 0;
        while i < order.len()
            invariant
                i <= order.len(),
                (out@, over as int) == evict_walk(
                    order@,
                    i as int,
                    over0 as int,
                    self.frame,
                    policy.min_resident_frames,
                    must_keep@,
                ),
            decreases order.len() - i,
        {
            let u: Used = order[i];
            let age: u64 = if self.frame >= u.entry.since { self.frame - u.entry.since } else { 0 };
            if over > 0 && !holds(must_keep, u.chunk) && u.entry.pinned_until < self.frame && age
                >= policy.min_resident_frames {
                over = if over > u.entry.bytes { over - u.entry.bytes } else { 0 };
                out.push(u.chunk);
            }
            i += 1;
        }
        out
    }

    proof fn lemma_lists(&self, used: Seq<Used>, order: Seq<Used>)
        requires
            self.wf(),
            used.len() == self.entries.items().len(),
            forall|j: int|
                0 <= j < used.len() ==> #[trigger] used[j] == (Used {
                    chunk: self.entries.items()[j].0,
                    entry: self.entries.items()[j].1,
                }),
            ordered(order),
            order.to_multiset() == used.to_multiset(),
        ensures
            lists_book(order, self.book()),
    {
        crate::sort::lemma_same_items(used, order);
        assert(used.no_duplicates()) by {
            assert forall|a: int, b: int| 0 <= a < used.len() && 0 <= b < used.len() && a != b implies used[a]
                != used[b] by {
                if a < b {
                    self.entries.lemma_ascending(a, b);
                } else {
                    self.entries.lemma_ascending(b, a);
                }
            }
        }
        crate::sort::lemma_same_distinct(used, order);
        assert forall|u: Used| #[trigger] order.contains(u) <==> self.book().dom().contains(u.chunk)
            && self.book()[u.chunk] == u.entry by {
            if used.contains(u) {
                let j = choose|j: int| 0 <= j < used.len() && used[j] == u;
                self.entries.lemma_index(j);
            }
            if self.entries.has(u.chunk) && self.entries.at(u.chunk) == u.entry {
                let j = self.entries.index_of(u.chunk);
                assert(self.entries.items()[j].0 == u.chunk);
                self.entries.lemma_index(j);
                assert(used[j] == u);
                assert(used.contains(u));
            }
        }
    }
}

/// `order` are the needed chunks in order, and `install` its first entries.
pub open spec fn is_install_order(
    order: Seq<Want>,
    install: Seq<(ChunkCoord, Level)>,
    book: Map<ChunkCoord, Entry>,
    frame: u64,
    camera: IVec3,
    wants: Seq<(ChunkCoord, Level)>,
    policy: ResidencyPolicy,
) -> bool {
    &&& ordered(order)
    &&& order.to_multiset() == needed(book, frame, camera, wants).to_multiset()
    &&& install.len() == (if order.len() < policy.max_install_per_frame {
        order.len() as int
    } else {
        policy.max_install_per_frame as int
    })
    &&& forall|j: int|
        0 <= j < install.len() ==> #[trigger] install[j] == (order[j].chunk, order[j].level)
}

/// The chunks to install: those that need it, in order, up to the limit.
pub open spec fn is_install_list(
    install: Seq<(ChunkCoord, Level)>,
    book: Map<ChunkCoord, Entry>,
    frame: u64,
    camera: IVec3,
    wants: Seq<(ChunkCoord, Level)>,
    policy: ResidencyPolicy,
) -> bool {
    exists|order: Seq<Want>|
        is_install_order(order, install, book, frame, camera, wants, policy)
}

/// The chunks to evict: in order of use, as long as the budget is exceeded.
pub open spec fn is_evict_list(
    out: Seq<ChunkCoord>,
    book: Map<ChunkCoord, Entry>,
    frame: u64,
    total: int,
    policy: ResidencyPolicy,
    must_keep: Seq<ChunkCoord>,
) -> bool {
    if policy.budget_bytes == 0 || total <= policy.budget_bytes {
        out.len() == 0
    } else {
        exists|order: Seq<Used>| #[trigger]
            lists_book(order, book) && out == evict_walk(
                order,
                order.len() as int,
                total - policy.budget_bytes,
                frame,
                policy.min_resident_frames,
                must_keep,
            ).0
    }
}

proof fn lemma_bytes_prefix(items: Seq<(ChunkCoord, Entry)>, i: int)
    requires
        0 <= i <= items.len(),
    ensures
        0 <= bytes_of(items.subrange(0, i)) <= bytes_of(items),
    decreases items.len(),
{
    if i < items.len() {
        lemma_bytes_prefix(items.drop_last(), i);
        assert(items.drop_last().subrange(0, i) =~= items.subrange(0, i));
    } else {
        assert(items.subrange(0, i) =~= items);
        if items.len() > 0 {
            lemma_bytes_prefix(items.drop_last(), i - 1);
            assert(items.drop_last().subrange(0, i - 1) =~= items.drop_last());
        }
    }
}

proof fn lemma_bytes_remove(s: Seq<(ChunkCoord, Entry)>, i: int)
    requires
        0 <= i < s.len(),
    ensures
        bytes_of(s.remove(i)) == bytes_of(s) - s[i].1.bytes,
    decreases s.len(),
{
    if i == s.len() - 1 {
        assert(s.remove(i) =~= s.drop_last());
    } else {
        lemma_bytes_remove(s.drop_last(), i);
        assert(s.remove(i).drop_last() =~= s.drop_last().remove(i));
        assert(s.remove(i).last() == s.last());
    }
}

proof fn lemma_bytes_insert(s: Seq<(ChunkCoord, Entry)>, i: int, e: (ChunkCoord, Entry))
    requires
        0 <= i <= s.len(),
    ensures
        bytes_of(s.insert(i, e)) == bytes_of(s) + e.1.bytes,
{
    lemma_bytes_remove(s.insert(i, e), i);
    assert(s.insert(i, e).remove(i) =~= s);
}

proof fn lemma_bytes_update(s: Seq<(ChunkCoord, Entry)>, i: int, e: (ChunkCoord, Entry))
    requires
        0 <= i < s.len(),
    ensures
        bytes_of(s.update(i, e)) == bytes_of(s) - s[i].1.bytes + e.1.bytes,
{
    lemma_bytes_remove(s, i);
    lemma_bytes_remove(s.update(i, e), i);
    assert(s.update(i, e).remove(i) =~= s.remove(i));
}

/// Every needed chunk was wanted, and needs its install.
proof fn lemma_needed(
    book: Map<ChunkCoord, Entry>,
    frame: u64,
    camera: IVec3,
    wants: Seq<(ChunkCoord, Level)>,
    w: Want,
)
    requires
        needed(book, frame, camera, wants).contains(w),
    ensures
        wants.contains((w.chunk, w.level)),
        needs_install(book, frame, w.chunk, w.level),
        w.dist == chebyshev(camera, w.chunk.0) as u32,
    decreases wants.len(),
{
    let all = needed(book, frame, camera, wants);
    let i = choose|i: int| 0 <= i < all.len() && all[i] == w;
    if wants.len() > 0 {
        let rest = needed(book, frame, camera, wants.drop_last());
        if i < rest.len() {
            assert(rest[i] == w);
            assert(rest.contains(w));
            lemma_needed(book, frame, camera, wants.drop_last(), w);
            let k = choose|k: int|
                0 <= k < wants.drop_last().len() && wants.drop_last()[k] == (w.chunk, w.level);
            assert(wants[k] == (w.chunk, w.level));
        } else {
            assert(wants[wants.len() - 1] == (w.chunk, w.level));
        }
    }
}

/// Installs never go beyond the limit, answer a want, never repeat what is resident, never make a
/// pinned chunk coarser, and come nearest first.
pub proof fn lemma_installs(
    install: Seq<(ChunkCoord, Level)>,
    book: Map<ChunkCoord, Entry>,
    frame: u64,
    camera: IVec3,
    wants: Seq<(ChunkCoord, Level)>,
    policy: ResidencyPolicy,
)
    requires
        is_install_list(install, book, frame, camera, wants, policy),
    ensures
        install.len() <= policy.max_install_per_frame,
        forall|i: int|
            0 <= i < install.len() ==> wants.contains(#[trigger] install[i]) && needs_install(
                book,
                frame,
                install[i].0,
                install[i].1,
            ),
        forall|i: int|
            0 <= i < install.len() && book.dom().contains((#[trigger] install[i]).0) ==> {
                let e = book[install[i].0];
                e.level != install[i].1 && (e.pinned_until >= frame ==> install[i].1 < e.level)
            },
        forall|i: int, j: int|
            0 <= i < j < install.len() ==> chebyshev(camera, (#[trigger] install[i]).0.0)
                <= chebyshev(camera, (#[trigger] install[j]).0.0),
{
    let order = choose|order: Seq<Want>|
        is_install_order(order, install, book, frame, camera, wants, policy);
    crate::sort::lemma_same_items(order, needed(book, frame, camera, wants));
    assert forall|i: int| 0 <= i < install.len() implies wants.contains(#[trigger] install[i])
        && needs_install(book, frame, install[i].0, install[i].1) && order[i].dist == chebyshev(
        camera,
        install[i].0.0,
    ) as u32 by {
        assert(install[i] == (order[i].chunk, order[i].level));
        assert(order.contains(order[i]));
        lemma_needed(book, frame, camera, wants, order[i]);
    }
    assert forall|i: int, j: int| 0 <= i < j < install.len() implies chebyshev(
        camera,
        (#[trigger] install[i]).0.0,
    ) <= chebyshev(camera, (#[trigger] install[j]).0.0) by {
        assert(!order[j].before(order[i]));
        assert(order[i].dist == chebyshev(camera, install[i].0.0) as u32);
        assert(order[j].dist == chebyshev(camera, install[j].0.0) as u32);
    }
}

/// There is only one install list.
pub proof fn lemma_install_list_unique(
    a: Seq<(ChunkCoord, Level)>,
    b: Seq<(ChunkCoord, Level)>,
    book: Map<ChunkCoord, Entry>,
    frame: u64,
    camera: IVec3,
    wants: Seq<(ChunkCoord, Level)>,
    policy: ResidencyPolicy,
)
    requires
        is_install_list(a, book, frame, camera, wants, policy),
        is_install_list(b, book, frame, camera, wants, policy),
    ensures
        a == b,
{
    let x = choose|order: Seq<Want>|
        is_install_order(order, a, book, frame, camera, wants, policy);
    let y = choose|order: Seq<Want>|
        is_install_order(order, b, book, frame, camera, wants, policy);
    crate::sort::lemma_order_unique(x, y);
    assert(a =~= b);
}

/// Bytes of the listed chunks.
pub open spec fn listed_bytes(book: Map<ChunkCoord, Entry>, out: Seq<ChunkCoord>) -> int
    decreases out.len(),
{
    if out.len() == 0 {
        0
    } else {
        listed_bytes(book, out.drop_last()) + book[out.last()].bytes
    }
}

/// What a walk evicts.
proof fn lemma_walk(
    book: Map<ChunkCoord, Entry>,
    order: Seq<Used>,
    n: int,
    over: int,
    frame: u64,
    min_frames: u64,
    must_keep: Seq<ChunkCoord>,
)
    requires
        0 <= n <= order.len(),
        over >= 0,
        forall|k: int| 0 <= k < order.len() ==> book[(#[trigger] order[k]).chunk] == order[k].entry,
    ensures
        ({
            let (out, left) = evict_walk(order, n, over, frame, min_frames, must_keep);
            &&& 0 <= left <= over
            &&& listed_bytes(book, out) >= over - left
            &&& forall|i: int|
                0 <= i < out.len() ==> exists|k: int|
                    0 <= k < n && (#[trigger] order[k]).chunk == #[trigger] out[i] && may_evict(
                        order[k],
                        frame,
                        min_frames,
                        must_keep,
                    )
            &&& left > 0 ==> forall|k: int|
                0 <= k < n && may_evict(#[trigger] order[k], frame, min_frames, must_keep)
                    ==> out.contains(order[k].chunk)
        }),
    decreases n,
{
    if n > 0 {
        lemma_walk(book, order, n - 1, over, frame, min_frames, must_keep);
        let (out0, left0) = evict_walk(order, n - 1, over, frame, min_frames, must_keep);
        let (out, left) = evict_walk(order, n, over, frame, min_frames, must_keep);
        if out != out0 {
            assert(out.drop_last() =~= out0);
            assert(book[order[n - 1].chunk] == order[n - 1].entry);
        }
        assert forall|i: int| 0 <= i < out.len() implies exists|k: int|
            0 <= k < n && (#[trigger] order[k]).chunk == #[trigger] out[i] && may_evict(
                order[k],
                frame,
                min_frames,
                must_keep,
            ) by {
            if i < out0.len() {
                assert(out[i] == out0[i]);
                let k = choose|k: int|
                    0 <= k < n - 1 && (#[trigger] order[k]).chunk == out0[i] && may_evict(
                        order[k],
                        frame,
                        min_frames,
                        must_keep,
                    );
                assert(order[k].chunk == out[i]);
            } else {
                assert(order[n - 1].chunk == out[i]);
            }
        }
        if left > 0 {
            assert forall|k: int|
                0 <= k < n && may_evict(#[trigger] order[k], frame, min_frames, must_keep) implies out.contains(
            order[k].chunk) by {
                if k < n - 1 {
                    assert(out0.contains(order[k].chunk));
                    let i = choose|i: int| 0 <= i < out0.len() && out0[i] == order[k].chunk;
                    assert(out[i] == order[k].chunk);
                } else {
                    assert(out[out.len() - 1] == order[k].chunk);
                }
            }
        }
    }
}

/// Nothing is evicted without a budget or within it; what is evicted is resident, not to be kept, not
/// pinned and not fresh; and chunks that could go stay only when the rest fits the budget.
pub proof fn lemma_evictions(
    out: Seq<ChunkCoord>,
    book: Map<ChunkCoord, Entry>,
    frame: u64,
    total: int,
    policy: ResidencyPolicy,
    must_keep: Seq<ChunkCoord>,
)
    requires
        is_evict_list(out, book, frame, total, policy, must_keep),
    ensures
        policy.budget_bytes == 0 || total <= policy.budget_bytes ==> out.len() == 0,
        forall|i: int|
            0 <= i < out.len() ==> book.dom().contains(#[trigger] out[i]) && may_evict(
                (Used { chunk: out[i], entry: book[out[i]] }),
                frame,
                policy.min_resident_frames,
                must_keep,
            ),
        policy.budget_bytes > 0 && total > policy.budget_bytes ==> total - listed_bytes(book, out)
            <= policy.budget_bytes || forall|c: ChunkCoord| #[trigger]
            book.dom().contains(c) && may_evict(
                (Used { chunk: c, entry: book[c] }),
                frame,
                policy.min_resident_frames,
                must_keep,
            ) ==> out.contains(c),
{
    if !(policy.budget_bytes == 0 || total <= policy.budget_bytes) {
        let over = total - policy.budget_bytes;
        let order = choose|order: Seq<Used>| #[trigger]
            lists_book(order, book) && out == evict_walk(
                order,
                order.len() as int,
                over,
                frame,
                policy.min_resident_frames,
                must_keep,
            ).0;
        assert forall|k: int| 0 <= k < order.len() implies book[(#[trigger] order[k]).chunk]
            == order[k].entry by {
            assert(order.contains(order[k]));
        }
        lemma_walk(book, order, order.len() as int, over, frame, policy.min_resident_frames, must_keep);
        if total - listed_bytes(book, out) > policy.budget_bytes {
            assert forall|c: ChunkCoord| #[trigger]
                book.dom().contains(c) && may_evict(
                    (Used { chunk: c, entry: book[c] }),
                    frame,
                    policy.min_resident_frames,
                    must_keep,
                ) implies out.contains(c) by {
                let u = Used { chunk: c, entry: book[c] };
                assert(order.contains(u));
                let k = choose|k: int| 0 <= k < order.len() && order[k] == u;
                assert(may_evict(order[k], frame, policy.min_resident_frames, must_keep));
            }
        }
        assert forall|i: int| 0 <= i < out.len() implies book.dom().contains(#[trigger] out[i])
            && may_evict(
            (Used { chunk: out[i], entry: book[out[i]] }),
            frame,
            policy.min_resident_frames,
            must_keep,
        ) by {
            let k = choose|k: int|
                0 <= k < order.len() && (#[trigger] order[k]).chunk == out[i] && may_evict(
                    order[k],
                    frame,
                    policy.min_resident_frames,
                    must_keep,
                );
            assert(order.contains(order[k]));
        }
    }
}

/// There is only one list of evictions.
pub proof fn lemma_evict_list_unique(
    a: Seq<ChunkCoord>,
    b: Seq<ChunkCoord>,
    book: Map<ChunkCoord, Entry>,
    frame: u64,
    total: int,
    policy: ResidencyPolicy,
    must_keep: Seq<ChunkCoord>,
)
    requires
        is_evict_list(a, book, frame, total, policy, must_keep),
        is_evict_list(b, book, frame, total, policy, must_keep),
    ensures
        a == b,
{
    if policy.budget_bytes == 0 || total <= policy.budget_bytes {
        assert(a =~= b);
    } else {
        let over = total - policy.budget_bytes;
        let x = choose|order: Seq<Used>| #[trigger]
            lists_book(order, book) && a == evict_walk(
                order,
                order.len() as int,
                over,
                frame,
                policy.min_resident_frames,
                must_keep,
            ).0;
        let y = choose|order: Seq<Used>| #[trigger]
            lists_book(order, book) && b == evict_walk(
                order,
                order.len() as int,
                over,
                frame,
                policy.min_resident_frames,
                must_keep,
            ).0;
        lemma_same_contents(x, y);
        assert forall|p: Used, q: Used|
            x.contains(p) && x.contains(q) && !#[trigger] p.before(q) && !q.before(p) implies p == q by {}
        crate::sort::lemma_order_unique(x, y);
    }
}

/// Sequences without repetition and with the same items have the same multiset.
proof fn lemma_same_contents(x: Seq<Used>, y: Seq<Used>)
    requires
        x.no_duplicates(),
        y.no_duplicates(),
        forall|u: Used| #[trigger] x.contains(u) <==> y.contains(u),
    ensures
        x.to_multiset() == y.to_multiset(),
{
    broadcast use vstd::seq_lib::group_to_multiset_ensures;

    x.lemma_multiset_has_no_duplicates();
    y.lemma_multiset_has_no_duplicates();
    assert forall|u: Used| x.to_multiset().count(u) == y.to_multiset().count(u) by {
        assert(x.contains(u) <==> x.to_multiset().count(u) > 0);
        assert(y.contains(u) <==> y.to_multiset().count(u) > 0);
        if x.contains(u) {
            assert(y.contains(u));
            assert(x.to_multiset().contains(u) && y.to_multiset().contains(u));
        } else {
            assert(!y.contains(u));
        }
    }
    assert(x.to_multiset() =~= y.to_multiset());
}

/// The distance of two chunks reaches the difference on each of the three axes, and is the
/// difference on one of them; it does not depend on the order of the two.
pub proof fn lemma_distance(a: IVec3, b: IVec3)
    ensures
        a.x - b.x <= chebyshev(a, b) && b.x - a.x <= chebyshev(a, b),
        a.y - b.y <= chebyshev(a, b) && b.y - a.y <= chebyshev(a, b),
        a.z - b.z <= chebyshev(a, b) && b.z - a.z <= chebyshev(a, b),
        ({
            let d = chebyshev(a, b);
            ||| d == a.x - b.x || d == b.x - a.x
            ||| d == a.y - b.y || d == b.y - a.y
            ||| d == a.z - b.z || d == b.z - a.z
        }),
        chebyshev(a, b) == chebyshev(b, a),
{
}

/// Chunk `c` lies in the cube of `d` chunks around the camera's chunk.
pub open spec fn in_cube(camera: IVec3, c: ChunkCoord, d: int) -> bool {
    &&& -d <= camera.x - c.0.x <= d
    &&& -d <= camera.y - c.0.y <= d
    &&& -d <= camera.z - c.0.z <= d
}

/// Every wanted chunk that needs its install is among the needed ones.
proof fn lemma_needed_all(
    book: Map<ChunkCoord, Entry>,
    frame: u64,
    camera: IVec3,
    wants: Seq<(ChunkCoord, Level)>,
    k: int,
)
    requires
        0 <= k < wants.len(),
        needs_install(book, frame, wants[k].0, wants[k].1),
    ensures
        needed(book, frame, camera, wants).contains(
            Want {
                chunk: wants[k].0,
                level: wants[k].1,
                dist: chebyshev(camera, wants[k].0.0) as u32,
            },
        ),
    decreases wants.len(),
{
    let all = needed(book, frame, camera, wants);
    let w = Want {
        chunk: wants[k].0,
        level: wants[k].1,
        dist: chebyshev(camera, wants[k].0.0) as u32,
    };
    let rest = needed(book, frame, camera, wants.drop_last());
    if k < wants.len() - 1 {
        lemma_needed_all(book, frame, camera, wants.drop_last(), k);
        let i = choose|i: int| 0 <= i < rest.len() && rest[i] == w;
        assert(all[i] == w);
    } else {
        assert(all[all.len() - 1] == w);
    }
}

/// Installs come nearest first on all three axes: every cube around the camera that holds a chunk of
/// the list holds those listed before it, and those of one distance come coarsest first. A wanted
/// chunk that is not resident is left out only when the list is full, and then no listed chunk is
/// farther away than it.
pub proof fn lemma_nearest_installs_first(
    install: Seq<(ChunkCoord, Level)>,
    book: Map<ChunkCoord, Entry>,
    frame: u64,
    camera: IVec3,
    wants: Seq<(ChunkCoord, Level)>,
    policy: ResidencyPolicy,
)
    requires
        is_install_list(install, book, frame, camera, wants, policy),
    ensures
        forall|i: int, j: int, d: int|
            0 <= i < j < install.len() && #[trigger] in_cube(camera, install[j].0, d)
                ==> #[trigger] in_cube(camera, install[i].0, d),
        forall|i: int, j: int|
            0 <= i < j < install.len() && (forall|d: int|
                in_cube(camera, install[i].0, d) ==> #[trigger] in_cube(camera, install[j].0, d))
                ==> (#[trigger] install[i]).1 >= (#[trigger] install[j]).1,
        forall|k: int|
            0 <= k < wants.len() && !book.dom().contains((#[trigger] wants[k]).0)
                && !install.contains(wants[k]) ==> install.len() == policy.max_install_per_frame && (
            forall|i: int, d: int|
                0 <= i < install.len() && in_cube(camera, wants[k].0, d) ==> #[trigger] in_cube(
                    camera,
                    install[i].0,
                    d,
                )),
{
    let order = choose|order: Seq<Want>|
        is_install_order(order, install, book, frame, camera, wants, policy);
    crate::sort::lemma_same_items(order, needed(book, frame, camera, wants));
    assert forall|i: int| 0 <= i < order.len() implies (#[trigger] order[i]).dist == chebyshev(
        camera,
        order[i].chunk.0,
    ) by {
        assert(order.contains(order[i]));
        lemma_needed(book, frame, camera, wants, order[i]);
    }
    assert forall|i: int, j: int, d: int|
        0 <= i < j < install.len() && #[trigger] in_cube(camera, install[j].0, d) implies
        #[trigger] in_cube(camera, install[i].0, d) by {
        assert(!order[j].before(order[i]));
        assert(install[i] == (order[i].chunk, order[i].level));
        assert(install[j] == (order[j].chunk, order[j].level));
        lemma_distance(camera, install[i].0.0);
        lemma_distance(camera, install[j].0.0);
    }
    assert forall|i: int, j: int|
        0 <= i < j < install.len() && (forall|d: int|
            in_cube(camera, install[i].0, d) ==> #[trigger] in_cube(camera, install[j].0, d)) implies (
    #[trigger] install[i]).1 >= (#[trigger] install[j]).1 by {
        assert(!order[j].before(order[i]));
        assert(install[i] == (order[i].chunk, order[i].level));
        assert(install[j] == (order[j].chunk, order[j].level));
        lemma_distance(camera, install[i].0.0);
        lemma_distance(camera, install[j].0.0);
        assert(in_cube(camera, install[i].0, order[i].dist as int));
        assert(in_cube(camera, install[j].0, order[i].dist as int));
    }
    assert forall|k: int|
        0 <= k < wants.len() && !book.dom().contains((#[trigger] wants[k]).0) && !install.contains(
            wants[k],
        ) implies install.len() == policy.max_install_per_frame && (forall|i: int, d: int|
        0 <= i < install.len() && in_cube(camera, wants[k].0, d) ==> #[trigger] in_cube(
            camera,
            install[i].0,
            d,
        )) by {
        lemma_needed_all(book, frame, camera, wants, k);
        let w = Want {
            chunk: wants[k].0,
            level: wants[k].1,
            dist: chebyshev(camera, wants[k].0.0) as u32,
        };
        assert(order.contains(w));
        let n = choose|n: int| 0 <= n < order.len() && order[n] == w;
        if n < install.len() {
            assert(install[n] == wants[k]);
        }
        assert forall|i: int, d: int|
            0 <= i < install.len() && in_cube(camera, wants[k].0, d) implies #[trigger] in_cube(
            camera,
            install[i].0,
            d,
        ) by {
            assert(!order[n].before(order[i]));
            assert(install[i] == (order[i].chunk, order[i].level));
            lemma_distance(camera, install[i].0.0);
            lemma_distance(camera, wants[k].0.0);
        }
    }
}

/// A chunk with this entry is free to go: nothing asks to keep it, its pin has run out, and it has
/// been resident for the least number of frames.
spec fn free_to_go(
    c: ChunkCoord,
    e: Entry,
    frame: u64,
    min_frames: u64,
    must_keep: Seq<ChunkCoord>,
) -> bool {
    &&& !must_keep.contains(c)
    &&& e.pinned_until < frame
    &&& min_frames == 0 || e.since + min_frames <= frame
}

/// A walk takes the least recently used, and no more than it must.
proof fn lemma_walk_order(
    book: Map<ChunkCoord, Entry>,
    order: Seq<Used>,
    n: int,
    over: int,
    frame: u64,
    min_frames: u64,
    must_keep: Seq<ChunkCoord>,
)
    requires
        0 <= n <= order.len(),
        over > 0,
        ordered(order),
        order.no_duplicates(),
        forall|k: int| 0 <= k < order.len() ==> book[(#[trigger] order[k]).chunk] == order[k].entry,
    ensures
        ({
            let (out, left) = evict_walk(order, n, over, frame, min_frames, must_keep);
            &&& 0 <= left
            &&& left > 0 ==> listed_bytes(book, out) == over - left
            &&& out.len() > 0 ==> listed_bytes(book, out.drop_last()) < over
            &&& out.no_duplicates()
            &&& forall|i: int|
                0 <= i < out.len() ==> exists|k: int|
                    0 <= k < n && (#[trigger] order[k]).chunk == #[trigger] out[i]
            &&& forall|i: int|
                0 <= i < out.len() ==> free_to_go(
                    #[trigger] out[i],
                    book[out[i]],
                    frame,
                    min_frames,
                    must_keep,
                )
            &&& forall|i: int, j: int|
                0 <= i < j < out.len() ==> book[#[trigger] out[i]].last_use
                    <= book[#[trigger] out[j]].last_use
            &&& forall|k: int|
                0 <= k < n && free_to_go(
                    (#[trigger] order[k]).chunk,
                    order[k].entry,
                    frame,
                    min_frames,
                    must_keep,
                ) && !out.contains(order[k].chunk) ==> left == 0 && forall|i: int|
                    0 <= i < out.len() ==> book[#[trigger] out[i]].last_use
                        <= order[k].entry.last_use
        }),
    decreases n,
{
    if n > 0 {
        lemma_walk_order(book, order, n - 1, over, frame, min_frames, must_keep);
        let (out0, left0) = evict_walk(order, n - 1, over, frame, min_frames, must_keep);
        let (out, left) = evict_walk(order, n, over, frame, min_frames, must_keep);
        let u = order[n - 1];
        assert(book[u.chunk] == u.entry);
        assert forall|i: int| 0 <= i < out0.len() implies book[#[trigger] out0[i]].last_use
            <= u.entry.last_use && out0[i] != u.chunk by {
            let k = choose|k: int| 0 <= k < n - 1 && (#[trigger] order[k]).chunk == out0[i];
            assert(!order[n - 1].before(order[k]));
            assert(book[order[k].chunk] == order[k].entry);
            assert(order[k] != order[n - 1]);
        }
        if left0 > 0 && may_evict(u, frame, min_frames, must_keep) {
            assert(out == out0.push(u.chunk));
            assert(out.drop_last() =~= out0);
            assert forall|i: int| 0 <= i < out.len() implies exists|k: int|
                0 <= k < n && (#[trigger] order[k]).chunk == #[trigger] out[i] by {
                if i < out0.len() {
                    let k = choose|k: int| 0 <= k < n - 1 && (#[trigger] order[k]).chunk == out0[i];
                    assert(order[k].chunk == out[i]);
                } else {
                    assert(order[n - 1].chunk == out[i]);
                }
            }
            assert forall|k: int|
                0 <= k < n && free_to_go(
                    (#[trigger] order[k]).chunk,
                    order[k].entry,
                    frame,
                    min_frames,
                    must_keep,
                ) implies out.contains(order[k].chunk) by {
                if k < n - 1 {
                    assert(out0.contains(order[k].chunk));
                    let i = choose|i: int| 0 <= i < out0.len() && out0[i] == order[k].chunk;
                    assert(out[i] == order[k].chunk);
                } else {
                    assert(out[out.len() - 1] == order[k].chunk);
                }
            }
        } else {
            assert(out == out0 && left == left0);
        }
    }
}

/// Evictions take the least recently used of the chunks that are free to go, in that order, none
/// twice, and stop as soon as the rest fits the budget. What is kept, pinned or fresh stays.
pub proof fn lemma_least_used_go_first(
    out: Seq<ChunkCoord>,
    book: Map<ChunkCoord, Entry>,
    frame: u64,
    total: int,
    policy: ResidencyPolicy,
    must_keep: Seq<ChunkCoord>,
)
    requires
        is_evict_list(out, book, frame, total, policy, must_keep),
    ensures
        out.no_duplicates(),
        forall|i: int| #![trigger out[i]]
            0 <= i < out.len() ==> book.dom().contains(out[i]) && !must_keep.contains(out[i])
                && book[out[i]].pinned_until < frame && (policy.min_resident_frames == 0
                || book[out[i]].since + policy.min_resident_frames <= frame),
        forall|i: int, j: int|
            0 <= i < j < out.len() ==> book[#[trigger] out[i]].last_use
                <= book[#[trigger] out[j]].last_use,
        forall|i: int, c: ChunkCoord|
            0 <= i < out.len() && #[trigger] book.dom().contains(c) && !must_keep.contains(c)
                && book[c].pinned_until < frame && (policy.min_resident_frames == 0 || book[c].since
                + policy.min_resident_frames <= frame) && book[c].last_use < book[
            #[trigger] out[i]].last_use ==> out.contains(c),
        out.len() > 0 ==> total - listed_bytes(book, out.drop_last()) > policy.budget_bytes,
{
    if !(policy.budget_bytes == 0 || total <= policy.budget_bytes) {
        let over = total - policy.budget_bytes;
        let min = policy.min_resident_frames;
        let order = choose|order: Seq<Used>| #[trigger]
            lists_book(order, book) && out == evict_walk(
                order,
                order.len() as int,
                over,
                frame,
                min,
                must_keep,
            ).0;
        assert forall|k: int| 0 <= k < order.len() implies book[(#[trigger] order[k]).chunk]
            == order[k].entry by {
            assert(order.contains(order[k]));
        }
        lemma_walk_order(book, order, order.len() as int, over, frame, min, must_keep);
        lemma_evictions(out, book, frame, total, policy, must_keep);
        assert forall|i: int| #![trigger out[i]] 0 <= i < out.len() implies book.dom().contains(out[i])
            && !must_keep.contains(out[i]) && book[out[i]].pinned_until < frame && (min == 0
            || book[out[i]].since + min <= frame) by {
            assert(free_to_go(out[i], book[out[i]], frame, min, must_keep));
        }
        assert forall|i: int, c: ChunkCoord|
            0 <= i < out.len() && #[trigger] book.dom().contains(c) && !must_keep.contains(c)
                && book[c].pinned_until < frame && (min == 0 || book[c].since + min <= frame)
                && book[c].last_use < book[#[trigger] out[i]].last_use implies out.contains(c) by {
            let u = Used { chunk: c, entry: book[c] };
            assert(order.contains(u));
            let k = choose|k: int| 0 <= k < order.len() && order[k] == u;
            assert(free_to_go(order[k].chunk, order[k].entry, frame, min, must_keep));
        }
    }
}

/// The ladder goes down by quarters, from a whole chunk to a brick, and a level is allowed from a
/// footprint of a quarter of its edge; the finest is always allowed.
pub proof fn lemma_ladder(i: int)
    requires
        0 <= i < LADDER_STEPS,
    ensures
        ladder_level(0) == CHUNK_SIZE,
        ladder_level(LADDER_STEPS - 1) == BRICK_FACTOR,
        i > 0 ==> 4 * ladder_level(i) == ladder_level(i - 1),
        i < LADDER_STEPS - 1 ==> 4 * level_threshold(ladder_level(i)) == ladder_level(i),
        level_threshold(ladder_level(LADDER_STEPS - 1)) == 0,
{
}

/// A report at the level that a chunk has changes nothing but its bytes; one at another level counts
/// as a use in that frame, and never takes a later use back. Neither moves a pin nor the frame in
/// which the chunk became resident.
pub proof fn lemma_report(e: Entry, bytes: usize, level: Level, frame: u64)
    ensures
        noted(e, bytes, e.level, frame) == (Entry { bytes, ..e }),
        ({
            let r = noted(e, bytes, level, frame);
            &&& r.bytes == bytes && r.level == level
            &&& r.pinned_until == e.pinned_until && r.since == e.since
            &&& r.last_use >= e.last_use
            &&& level != e.level ==> r.last_use >= frame
            &&& r.last_use == e.last_use || r.last_use == frame
        }),
{
}

} // verus!
