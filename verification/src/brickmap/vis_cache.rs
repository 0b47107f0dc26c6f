//! The cache of sunlight visibility per voxel: when it is cleared and what the shaders are told.

use vstd::prelude::*;

verus! {

/// Slots of the table.
pub const VIS_CAP_SLOTS: u32 = 4194304;

/// Bytes of the table.
pub const VIS_CAP_BYTES: u32 = 16777216;

/// What the shaders read.
#[derive(Debug, Clone, Copy, PartialEq, Eq, Structural)]
pub struct VisCacheMeta {
    pub enabled: u32,
    pub capacity_mask: u32,
    pub _pad0: u32,
    pub _pad1: u32,
}

/// Edit generation of the main world.
#[derive(Debug, Clone, Copy, PartialEq, Eq, Structural)]
pub struct VisGenExtract(pub u64);

/// The switch in the menu.
#[derive(Debug, Clone, Copy, PartialEq, Eq, Structural)]
pub struct VisCacheEnabled(pub bool);

/// The switch as rendering took it over.
#[derive(Debug, Clone, Copy, PartialEq, Eq, Structural)]
pub struct VisEnabledExtract(pub bool);

/// What is kept from frame to frame.
#[derive(Debug, Clone, Copy, PartialEq, Eq, Structural)]
pub struct VisCacheState {
    /// Generation that the table's entries belong to.
    pub last_generation: u64,
    /// What the shaders were last told: 1 is on.
    pub last_written: u32,
}

/// What a frame has to do.
#[derive(Debug, Clone, Copy, PartialEq, Eq, Structural)]
pub struct VisCacheStep {
    /// Clear the tables.
    pub clear: bool,
    /// Tell the shaders this.
    pub meta: Option<VisCacheMeta>,
}

/// What the shaders are told.
pub open spec fn meta_of(on: bool) -> VisCacheMeta {
    VisCacheMeta {
        enabled: if on {
            1
        } else {
            0
        },
        capacity_mask: 4194303,
        _pad0: 0,
        _pad1: 0,
    }
}

fn make_meta(on: bool) -> (r: VisCacheMeta)
    ensures
        r == meta_of(on),
{
    VisCacheMeta {
        enabled: if on { 1 } else { 0 },
        capacity_mask: VIS_CAP_SLOTS - 1,
        _pad0: 0,
        _pad1: 0,
    }
}

/// What rendering takes over: generation 0 without a scene, and switched on without a switch.
pub fn extract_vis_generation(generation: Option<u64>, enabled: Option<VisCacheEnabled>) -> (r: (
    VisGenExtract,
    VisEnabledExtract,
))
    ensures
        r.0.0 == (match generation {
            Some(g) => g,
            None => 0,
        }),
        r.1.0 == (match enabled {
            Some(e) => e.0,
            None => true,
        }),
{
    let g: u64 = match generation {
        Some(g) => g,
        None => 0,
    };
    let e: bool = match enabled {
        Some(e) => e.0,
        None => true,
    };
    (VisGenExtract(g), VisEnabledExtract(e))
}

impl VisCacheState {
    /// An empty table; `bypass` switches the cache off.
    pub fn init(bypass: bool) -> (r: (Self, VisCacheMeta))
        ensures
            r.0.last_generation == 0,
            r.0.last_written == meta_of(!bypass).enabled,
            r.1 == meta_of(!bypass),
    {
        let meta: VisCacheMeta = make_meta(!bypass);
        (VisCacheState { last_generation: 0, last_written: meta.enabled }, meta)
    }

    /// The table is cleared when the world was edited, and the shaders are told when the switch
    /// moved.
    pub fn prepare(&mut self, generation: VisGenExtract, enabled: Option<VisEnabledExtract>) -> (r:
        VisCacheStep)
        ensures
            final(self).last_generation == generation.0,
            r.clear == (generation.0 != old(self).last_generation),
            ({
                let on = match enabled {
                    Some(e) => e.0,
                    None => true,
                };
                &&& final(self).last_written == meta_of(on).enabled
                &&& r.meta == (if old(self).last_written == meta_of(on).enabled {
                    None
                } else {
                    Some(meta_of(on))
                })
            }),
    {
        let clear: bool = generation.0 != self.last_generation;
        self.last_generation = generation.0;
        let on: bool = match enabled {
            Some(e) => e.0,
            None => true,
        };
        let want: VisCacheMeta = make_meta(on);
        let meta: Option<VisCacheMeta> = if self.last_written != want.enabled {
            self.last_written = want.enabled;
            Some(want)
        } else {
            None
        };
        VisCacheStep { clear, meta }
    }
}

/// The shaders are told the number of slots less one, which masks a slot out of a hash, and whether to
/// look at all.
pub proof fn lemma_meta(on: bool)
    ensures
        meta_of(on).capacity_mask + 1 == VIS_CAP_SLOTS,
        VIS_CAP_BYTES == 4 * VIS_CAP_SLOTS,
        meta_of(on).enabled != 0 <==> on,
        meta_of(on).enabled <= 1,
        forall|h: u32| #[trigger] (h & meta_of(on).capacity_mask) == h % VIS_CAP_SLOTS,
{
    assert forall|h: u32| #[trigger] (h & meta_of(on).capacity_mask) == h % VIS_CAP_SLOTS by {
        assert(h & 4194303 == h % 4194304) by (bit_vector);
    }
}

} // verus!
