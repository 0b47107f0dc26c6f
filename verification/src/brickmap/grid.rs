//! The voxel world as the renderer reads it.

use super::coord_map::CoordMap;
use super::tree::ChunkTree;
use super::wire::{PaletteEntry, PALETTE_ENTRY_COUNT};
use crate::math::{ChunkCoord, IVec3};
use vstd::prelude::*;

verus! {

/// A volume's palette. Every write raises `version` and widens `dirty`.
pub struct Palette {
    pub entries: Vec<PaletteEntry>,
    pub version: u64,
    /// Entries written since the range was last taken, first and last index.
    pub dirty: Option<(u16, u16)>,
    /// The version at which the range was last taken: `dirty` covers what was written after it.
    pub since: u64,
    /// The entries at each version so far.
    pub past: Ghost<Seq<Seq<PaletteEntry>>>,
}

impl Palette {
    pub open spec fn wf(&self) -> bool {
        &&& self.entries.len() == PALETTE_ENTRY_COUNT
        &&& match self.dirty {
            Some((lo, hi)) => lo <= hi,
            None => true,
        }
        &&& self.since <= self.version
        &&& self.past@.len() == self.version + 1
        &&& self.past@[self.version as int] == self.entries@
        &&& forall|v: int, i: int|
            self.since <= v <= self.version && 0 <= i < PALETTE_ENTRY_COUNT && !self.reports(i)
                ==> #[trigger] self.past@[v][i] == self.entries@[i]
    }

    /// Entry `i` is in the range of written entries.
    pub open spec fn reports(&self, i: int) -> bool {
        match self.dirty {
            Some((lo, hi)) => lo <= i <= hi,
            None => false,
        }
    }

    /// `b` is `a`, perhaps after more writes: what `a` was at each version is remembered.
    pub open spec fn grew(a: Palette, b: Palette) -> bool {
        a.version <= b.version && forall|v: int|
            0 <= v <= a.version ==> #[trigger] b.past@[v] == a.past@[v]
    }

    /// `b` is `a` after its report was taken.
    pub open spec fn taken(a: Palette, b: Palette) -> bool {
        &&& b.entries == a.entries
        &&& b.version == a.version
        &&& b.past == a.past
        &&& b.dirty is None
        &&& b.since == a.version
    }

    /// Nothing has been written: every entry is blank.
    pub open spec fn is_fresh(&self) -> bool {
        &&& self.wf()
        &&& forall|i: int| 0 <= i < self.entries.len() ==> (#[trigger] self.entries@[i]).is_blank()
        &&& self.version == 0
        &&& self.dirty is None
        &&& self.since == 0
    }

    pub fn new() -> (r: Self)
        ensures
            r.is_fresh(),
    {
        let mut entries: Vec<PaletteEntry> = Vec::with_capacity(PALETTE_ENTRY_COUNT);
        while entries.len() < PALETTE_ENTRY_COUNT
            invariant
                entries.len() <= PALETTE_ENTRY_COUNT,
                forall|i: int| 0 <= i < entries.len() ==> (#[trigger] entries@[i]).is_blank(),
            decreases PALETTE_ENTRY_COUNT - entries.len(),
        {
            entries.push(PaletteEntry::default());
        }
        let ghost past = seq![entries@];
        Palette { entries, version: 0, dirty: None, since: 0, past: Ghost(past) }
    }

    /// Takes the range of written entries.
    pub fn take_dirty(&mut self) -> (r: Option<(u16, u16)>)
        requires
            old(self).wf(),
        ensures
            r == old(self).dirty,
            Self::taken(*old(self), *final(self)),
            final(self).wf(),
    {
        let r: Option<(u16, u16)> = self.dirty;
        self.dirty = None;
        self.since = self.version;
        r
    }

    /// Writes one entry.
    pub fn set(&mut self, i: u16, e: PaletteEntry)
        requires
            old(self).wf(),
            old(self).version < u64::MAX,
        ensures
            final(self).wf(),
            final(self).entries@ == old(self).entries@.update(i as int, e),
            final(self).version == old(self).version + 1,
            final(self).dirty == Some(
                match old(self).dirty {
                    None => (i, i),
                    Some((lo, hi)) => (if i < lo { i } else { lo }, if i > hi { i } else { hi }),
                },
            ),
            final(self).since == old(self).since,
            Self::grew(*old(self), *final(self)),
    {
        let ghost o = *self;
        self.entries[i as usize] = e;
        self.version = self.version + 1;
        self.dirty = Some(
            match self.dirty {
                None => (i, i),
                Some((lo, hi)) => (if i < lo { i } else { lo }, if i > hi { i } else { hi }),
            },
        );
        self.past = Ghost(o.past@.push(self.entries@));
        proof {
            assert forall|v: int, k: int|
                self.since <= v <= self.version && 0 <= k < PALETTE_ENTRY_COUNT && !self.reports(
                    k,
                ) implies #[trigger] self.past@[v][k] == self.entries@[k] by {
                assert(!o.reports(k));
                if v <= o.version {
                    assert(o.past@[v][k] == o.entries@[k]);
                }
            }
        }
    }
}

/// What changed in a chunk's tree since it was last uploaded.
#[derive(Debug)]
pub struct TreeDirty {
    /// Node ids no longer mean what they did: the block must be installed anew.
    pub reset: bool,
    /// Changed nodes as `(level, id)`, deepest level first.
    pub nodes: Vec<(u8, u32)>,
}

/// One volume of voxels.
pub struct VolumeGrid {
    pub chunks: CoordMap<ChunkTree>,
    pub palette: Palette,
    /// A window (origin, size) that is pinned from outside.
    pub stream_window: Option<(IVec3, IVec3)>,
    /// The volume is one of the far levels.
    pub far: bool,
}

/// A window size that the dense index can hold.
pub open spec fn window_ok(dims: IVec3) -> bool {
    0 <= dims.x <= 64 && 0 <= dims.y <= 64 && 0 <= dims.z <= 64
}

impl VolumeGrid {
    pub open spec fn wf(&self) -> bool {
        &&& self.chunks.wf()
        &&& self.chunks.items().len() < u32::MAX
        &&& forall|c: ChunkCoord| #[trigger] self.chunks.has(c) ==> self.chunks.at(c).wf()
        &&& self.palette.wf()
        &&& match self.stream_window {
            Some((o, d)) => window_ok(d),
            None => true,
        }
    }

    /// A window computed from the content has an origin: one chunk below the lowest content.
    pub open spec fn window_fits(&self) -> bool {
        self.stream_window is Some || forall|c: ChunkCoord| #[trigger]
            self.content(c) ==> c.0.x > i32::MIN && c.0.y > i32::MIN && c.0.z > i32::MIN
    }

    /// Chunk `c` has something to render.
    pub open spec fn content(&self, c: ChunkCoord) -> bool {
        self.chunks.has(c) && !self.chunks.at(c).is_air()
    }

    pub fn new() -> (r: Self)
        ensures
            r.wf(),
            r.chunks.items().len() == 0,
            r.palette.is_fresh(),
            r.stream_window is None,
            !r.far,
    {
        VolumeGrid {
            chunks: CoordMap::new(),
            palette: Palette::new(),
            stream_window: None,
            far: false,
        }
    }

    /// The tree of chunk `c`.
    pub fn chunk(&self, c: ChunkCoord) -> (r: Option<&ChunkTree>)
        requires
            self.chunks.wf(),
        ensures
            match r {
                Some(t) => self.chunks.has(c) && *t == self.chunks.at(c),
                None => !self.chunks.has(c),
            },
    {
        self.chunks.get(c)
    }
}

/// Chunk `c` has something to render: a tree that is more than air.
pub fn chunk_has_content(grid: &VolumeGrid, c: ChunkCoord) -> (r: bool)
    requires
        grid.wf(),
    ensures
        r == grid.content(c),
{
    match grid.chunk(c) {
        Some(t) => !t.is_empty(),
        None => false,
    }
}

} // verus!
