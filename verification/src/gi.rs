//! Screen-space global illumination: settings, the denoiser's plan, and what is kept from frame to
//! frame.

use crate::math::UVec2;
use vstd::prelude::*;

verus! {

/// Settings of global illumination.
#[derive(Debug, Clone, Copy, PartialEq, Eq, Structural)]
pub struct GiSettings {
    pub enabled: bool,
    /// The grid is this much coarser than the render target.
    pub gi_div: u32,
    /// Denoiser tier: 0 is off, 3 the best.
    pub denoise: u32,
    /// Light that bounces off sunlit surfaces counts.
    pub sun_bounce: bool,
}

/// Number of denoiser tiers.
pub const DENOISE_TIERS: u32 = 4;

/// What the denoiser does.
#[derive(Debug, Clone, Copy, PartialEq, Eq, Structural)]
pub struct DenoisePlan {
    /// It runs.
    pub on: bool,
    /// Filter rounds.
    pub rounds: u32,
    /// Radius of the filter kernel.
    pub radius: u32,
}

/// Sizes that the shaders lay down for the denoiser.
#[derive(Debug, Clone, Copy, PartialEq, Eq, Structural)]
pub struct DenoiseConsts {
    /// Kernel radius of the lower tiers.
    pub radius_fast: u32,
    /// Kernel radius of the upper tiers.
    pub radius: u32,
    /// Filter rounds.
    pub rounds: u32,
}

impl Default for GiSettings {
    fn default() -> (r: Self)
        ensures
            r == (GiSettings { enabled: true, gi_div: 4, denoise: 1, sun_bounce: false }),
    {
        GiSettings { enabled: true, gi_div: 4, denoise: 1, sun_bounce: false }
    }
}

/// The divisor for the `i`-th choice of the resolution menu: 1, 2 or 4.
pub fn div_choice(i: usize) -> (r: Option<u32>)
    ensures
        r == (if i == 0 {
            Some(1u32)
        } else if i == 1 {
            Some(2u32)
        } else if i == 2 {
            Some(4u32)
        } else {
            None
        }),
{
    if i == 0 {
        Some(1)
    } else if i == 1 {
        Some(2)
    } else if i == 2 {
        Some(4)
    } else {
        None
    }
}

impl GiSettings {
    /// The divisor in force: from 1 to 4.
    pub open spec fn div_of(self) -> u32 {
        if self.gi_div < 1 {
            1
        } else if self.gi_div > 4 {
            4
        } else {
            self.gi_div
        }
    }

    /// The tier in force.
    pub open spec fn tier_of(self) -> u32 {
        if self.denoise < 3 {
            self.denoise
        } else {
            3
        }
    }

    /// The divisor in force.
    pub fn div(&self) -> (r: u32)
        ensures
            r == self.div_of(),
            1 <= r <= 4,
    {
        if self.gi_div < 1 {
            1
        } else if self.gi_div > 4 {
            4
        } else {
            self.gi_div
        }
    }

    /// The tier in force.
    pub fn tier(&self) -> (r: u32)
        ensures
            r == self.tier_of(),
            r < DENOISE_TIERS,
    {
        if self.denoise < DENOISE_TIERS - 1 {
            self.denoise
        } else {
            DENOISE_TIERS - 1
        }
    }

    /// The denoiser's plan for the tier in force.
    pub fn denoise_plan(&self, c: &DenoiseConsts) -> (r: DenoisePlan)
        ensures
            r == (if self.tier_of() == 0 {
                DenoisePlan { on: false, rounds: 0, radius: c.radius_fast }
            } else if self.tier_of() == 1 {
                DenoisePlan { on: true, rounds: c.rounds, radius: c.radius_fast }
            } else {
                DenoisePlan { on: true, rounds: c.rounds, radius: c.radius }
            }),
    {
        let t: u32 = self.tier();
        if t == 0 {
            DenoisePlan { on: false, rounds: 0, radius: c.radius_fast }
        } else if t == 1 {
            DenoisePlan { on: true, rounds: c.rounds, radius: c.radius_fast }
        } else {
            DenoisePlan { on: true, rounds: c.rounds, radius: c.radius }
        }
    }

    /// Size of the grid: the render target divided by the divisor, rounded down, at least 1.
    pub open spec fn grid_size(self, render: UVec2) -> UVec2 {
        let d = self.div_of();
        UVec2 {
            x: if render.x < d {
                1
            } else {
                (render.x as int / d as int) as u32
            },
            y: if render.y < d {
                1
            } else {
                (render.y as int / d as int) as u32
            },
        }
    }

    /// Size of the grid.
    pub fn gi_size(&self, render_size: UVec2) -> (r: UVec2)
        ensures
            r == self.grid_size(render_size),
            r.x >= 1,
            r.y >= 1,
    {
        let d: u32 = self.div();
        let x: u32 = render_size.x / d;
        let y: u32 = render_size.y / d;
        proof {
            lemma_quotient(render_size.x as int, d as int);
            lemma_quotient(render_size.y as int, d as int);
        }
        UVec2 { x: if x > 1 { x } else { 1 }, y: if y > 1 { y } else { 1 } }
    }

    /// The settings that rendering takes over: those in force, or the defaults.
    pub fn extracted(settings: Option<GiSettings>) -> (r: GiSettings)
        ensures
            r == (match settings {
                None => GiSettings { enabled: true, gi_div: 4, denoise: 1, sun_bounce: false },
                Some(s) => GiSettings { gi_div: s.div_of(), denoise: s.tier_of(), ..s },
            }),
    {
        match settings {
            None => GiSettings::default(),
            Some(s) => GiSettings {
                enabled: s.enabled,
                gi_div: s.div(),
                denoise: s.tier(),
                sun_bounce: s.sun_bounce,
            },
        }
    }
}

proof fn lemma_quotient(a: int, d: int)
    requires
        0 <= a,
        1 <= d,
    ensures
        a < d ==> a / d == 0,
        a >= d ==> a / d >= 1,
        0 <= a / d <= a,
{
    if a < d {
        vstd::arithmetic::div_mod::lemma_basic_div(a, d);
    } else {
        assert(a / d >= 1) by (nonlinear_arith)
            requires
                a >= d,
                d >= 1,
        ;
    }
    assert(0 <= a / d <= a) by (nonlinear_arith)
        requires
            0 <= a,
            1 <= d,
    ;
}

/// What is kept from frame to frame.
#[derive(Debug, Clone, Copy, PartialEq, Eq, Structural)]
pub struct GiState {
    pub frame: u32,
    /// Which of the two reservoir buffers is written.
    pub res_flip: bool,
    /// Counts the frames in which the world changed.
    pub world_rev: u32,
    /// That count when reservoirs were last written.
    pub world_rev_gi: u32,
}

/// What a frame needs.
#[derive(Debug, Clone, Copy, PartialEq, Eq, Structural)]
pub struct GiFrame {
    pub frame: u32,
    pub enabled: bool,
    pub sun_bounce: bool,
    pub div: u32,
    pub tier: u32,
    /// The world is as it was when the last reservoirs were written: they need no check.
    pub skip_verify: bool,
    /// Buffer that this frame writes: 0 or 1.
    pub write: usize,
    /// Buffer that the last frame wrote.
    pub read: usize,
    /// The camera of this frame is the next frame's previous one.
    pub keep_view: bool,
}

/// The world has changed for the light: all of it, its colours, or some part.
pub open spec fn is_change(full: bool, palette_changed: bool, boxes: usize) -> bool {
    full || palette_changed || boxes > 0
}

/// An upload changed what can be seen.
pub fn world_changed(full: bool, palette_changed: bool, boxes: usize) -> (r: bool)
    ensures
        r == is_change(full, palette_changed, boxes),
        r == (full || palette_changed || boxes > 0),
{
    full || palette_changed || boxes > 0
}

/// The next number, around the end of 32 bits.
pub open spec fn next32(n: u32) -> u32 {
    if n == u32::MAX {
        0
    } else {
        (n + 1) as u32
    }
}

impl GiState {
    pub fn new() -> (r: Self)
        ensures
            r == (GiState { frame: 0, res_flip: false, world_rev: 0, world_rev_gi: 0 }),
    {
        GiState { frame: 0, res_flip: false, world_rev: 0, world_rev_gi: 0 }
    }

    /// The state after a frame.
    pub open spec fn stepped(self, enabled: bool, changed: bool, has_view: bool) -> GiState {
        let rev = if changed {
            next32(self.world_rev)
        } else {
            self.world_rev
        };
        GiState {
            frame: next32(self.frame),
            res_flip: if enabled {
                !self.res_flip
            } else {
                self.res_flip
            },
            world_rev: rev,
            world_rev_gi: if enabled && has_view {
                rev
            } else {
                self.world_rev_gi
            },
        }
    }

    /// One frame.
    pub fn prepare_gi(&mut self, settings: &GiSettings, changed: bool, has_view: bool) -> (r: GiFrame)
        ensures
            *final(self) == old(self).stepped(settings.enabled, changed, has_view),
            r.frame == final(self).frame,
            r.enabled == settings.enabled,
            r.sun_bounce == settings.sun_bounce,
            r.div == settings.div_of(),
            r.tier == settings.tier_of(),
            r.skip_verify == (final(self).world_rev == old(self).world_rev_gi),
            r.write == (if old(self).res_flip {
                1int
            } else {
                0
            }),
            r.read == 1 - r.write,
            r.keep_view == (settings.enabled && has_view),
    {
        self.frame = self.frame.wrapping_add(1);
        if changed {
            self.world_rev = self.world_rev.wrapping_add(1);
        }
        let skip_verify: bool = self.world_rev == self.world_rev_gi;
        let keep_view: bool = settings.enabled && has_view;
        if keep_view {
            self.world_rev_gi = self.world_rev;
        }
        let (write, read): (usize, usize) = if self.res_flip { (1, 0) } else { (0, 1) };
        if settings.enabled {
            self.res_flip = !self.res_flip;
        }
        GiFrame {
            frame: self.frame,
            enabled: settings.enabled,
            sun_bounce: settings.sun_bounce,
            div: settings.div(),
            tier: settings.tier(),
            skip_verify,
            write,
            read,
            keep_view,
        }
    }

    /// The state after frames without global illumination, of which `changed` tells the changes.
    pub open spec fn idled(self, changed: Seq<bool>) -> GiState
        decreases changed.len(),
    {
        if changed.len() == 0 {
            self
        } else {
            self.idled(changed.drop_last()).stepped(false, changed.last(), false)
        }
    }

    /// A frame reads the buffer that the last frame with global illumination wrote.
    pub proof fn lemma_buffers_swap(self, changed: bool, changed2: bool, v: bool, v2: bool)
        ensures
            self.stepped(true, changed, v).res_flip != self.res_flip,
            self.stepped(true, changed, v).stepped(true, changed2, v2).res_flip == self.res_flip,
            self.stepped(false, changed, v).res_flip == self.res_flip,
    {
    }

    /// Once reservoirs were written, the check is skipped exactly as long as the world does not
    /// change: after a frame with global illumination and any frames without, of fewer than 2^32
    /// changes in all.
    pub proof fn lemma_skip_while_unchanged(self, changed: Seq<bool>, last: bool)
        requires
            self.world_rev == self.world_rev_gi,
            changed.push(last).len() <= u32::MAX,
        ensures
            ({
                let s = self.idled(changed);
                s.stepped(true, last, true).world_rev == s.world_rev_gi <==> forall|i: int|
                    0 <= i < changed.push(last).len() ==> !#[trigger] changed.push(last)[i]
            }),
    {
        let all = changed.push(last);
        assert(all.drop_last() =~= changed);
        lemma_idle_count(self, all);
        lemma_no_changes(all);
        assert(self.idled(all).world_rev == self.idled(changed).stepped(true, last, true).world_rev);
    }
}

/// Frames with a change.
pub open spec fn changes(c: Seq<bool>) -> nat
    decreases c.len(),
{
    if c.len() == 0 {
        0
    } else {
        changes(c.drop_last()) + (if c.last() {
            1nat
        } else {
            0nat
        })
    }
}

proof fn lemma_idle_count(s: GiState, c: Seq<bool>)
    requires
        c.len() <= u32::MAX,
    ensures
        changes(c) <= c.len(),
        s.idled(c).world_rev_gi == s.world_rev_gi,
        s.idled(c).world_rev == (if s.world_rev + changes(c) <= u32::MAX {
            s.world_rev + changes(c)
        } else {
            s.world_rev + changes(c) - 0x1_0000_0000
        }),
    decreases c.len(),
{
    if c.len() > 0 {
        lemma_idle_count(s, c.drop_last());
    }
}

proof fn lemma_no_changes(c: Seq<bool>)
    ensures
        changes(c) == 0 <==> forall|i: int| 0 <= i < c.len() ==> !#[trigger] c[i],
    decreases c.len(),
{
    if c.len() > 0 {
        lemma_no_changes(c.drop_last());
        if changes(c) == 0 {
            assert forall|i: int| 0 <= i < c.len() implies !#[trigger] c[i] by {
                if i < c.len() - 1 {
                    assert(!c.drop_last()[i]);
                }
            }
        } else if forall|i: int| 0 <= i < c.len() ==> !#[trigger] c[i] {
            assert forall|i: int| 0 <= i < c.drop_last().len() implies !#[trigger] c.drop_last()[i] by {
                assert(!c[i]);
            }
            assert(!c[c.len() - 1]);
        }
    }
}

/// The grid is the render target's size divided by the divisor, rounded down, on both axes, and never
/// empty; the divisor is the setting itself where that is 1 to 4, and the nearest of these otherwise.
pub proof fn lemma_grid_size(s: GiSettings, render: UVec2)
    ensures
        ({
            let (g, d) = (s.grid_size(render), s.div_of());
            &&& 1 <= d <= 4
            &&& 1 <= s.gi_div <= 4 ==> d == s.gi_div
            &&& s.gi_div > 4 ==> d == 4
            &&& s.gi_div < 1 ==> d == 1
            &&& g.x >= 1 && g.y >= 1
            &&& render.x >= d ==> d * g.x <= render.x < d * g.x + d
            &&& render.y >= d ==> d * g.y <= render.y < d * g.y + d
            &&& render.x < d ==> g.x == 1
            &&& render.y < d ==> g.y == 1
        }),
{
    let d = s.div_of() as int;
    lemma_division(render.x as int, d);
    lemma_division(render.y as int, d);
}

proof fn lemma_division(a: int, d: int)
    by (nonlinear_arith)
    requires
        0 <= a,
        0 < d,
    ensures
        d * (a / d) <= a < d * (a / d) + d,
        0 <= a / d <= a,
        a >= d ==> a / d >= 1,
{
}

/// The tier is the setting itself, up to the best one.
pub proof fn lemma_tier(s: GiSettings)
    ensures
        s.tier_of() < DENOISE_TIERS,
        s.denoise < DENOISE_TIERS ==> s.tier_of() == s.denoise,
        s.denoise >= DENOISE_TIERS ==> s.tier_of() == DENOISE_TIERS - 1,
{
}

/// Every frame counts once, in 32 bits, whatever is switched off; a change of the world counts in the
/// frame that sees it, and is taken over by frames that write reservoirs only.
pub proof fn lemma_frames_count(s: GiState, enabled: bool, changed: bool, has_view: bool)
    ensures
        ({
            let n = s.stepped(enabled, changed, has_view);
            &&& n.frame == (s.frame + 1) % 0x1_0000_0000
            &&& changed ==> n.world_rev == (s.world_rev + 1) % 0x1_0000_0000
            &&& !changed ==> n.world_rev == s.world_rev
            &&& enabled && has_view ==> n.world_rev_gi == n.world_rev
            &&& !enabled || !has_view ==> n.world_rev_gi == s.world_rev_gi
        }),
{
}

/// Only where nothing at all has changed is the world the same.
pub proof fn lemma_changes(full: bool, palette_changed: bool, boxes: usize)
    ensures
        !is_change(false, false, 0),
        is_change(true, palette_changed, boxes),
        is_change(full, true, boxes),
        boxes > 0 ==> is_change(full, palette_changed, boxes),
{
}

} // verus!
