//! The main pass and what runs before and after it: sizes of the textures and buffers, and the order
//! of the passes.

use super::consts::{BEAM_DIV, VIEW_H, VIEW_W, WORKGROUP_SIZE};
use crate::gi::{DenoiseConsts, DenoisePlan, GiSettings};
use crate::math::{div_ceil, UVec2};
use vstd::arithmetic::power2::pow2;
use vstd::prelude::*;

verus! {

/// Edge of the main pass's workgroups.
pub const DDA_WORKGROUP_SIZE: u32 = 8;

/// Word of the exposure buffer at which its parameters start: 8 words of state and 64 bins come
/// first.
pub const EYE_PARAM_WORD: u64 = 72;

/// Words of the exposure buffer.
pub const EYE_WORDS: u64 = 80;

/// Size of the render target.
#[derive(Debug, Clone, Copy, PartialEq, Eq, Structural)]
pub struct RenderScale {
    pub size: UVec2,
    /// The target is this much smaller than the window.
    pub factor: u32,
}

impl Default for RenderScale {
    fn default() -> (r: Self)
        ensures
            r == (RenderScale { size: UVec2 { x: VIEW_W, y: VIEW_H }, factor: 1 }),
    {
        RenderScale { size: UVec2 { x: VIEW_W, y: VIEW_H }, factor: 1 }
    }
}

/// The factor for the `i`-th choice of the menu: 1 to 4.
pub fn scale_choice(i: usize) -> (r: Option<u32>)
    ensures
        r == (if i < 4 {
            Some((i + 1) as u32)
        } else {
            None
        }),
{
    if i < 4 {
        Some(i as u32 + 1)
    } else {
        None
    }
}

/// Effects on the finished picture.
#[derive(Debug, Clone, Copy, PartialEq, Eq, Structural)]
pub struct PostFxSettings {
    /// Smooth edges.
    pub fxaa: bool,
}

/// Edges are smoothed only at full resolution; an unknown resolution counts as full.
pub fn blit_uses_fxaa(post: Option<PostFxSettings>, scale: Option<RenderScale>) -> (r: bool)
    ensures
        r == (post is Some && post->0.fxaa && !(scale is Some && scale->0.factor != 1)),
{
    let on: bool = match post {
        Some(p) => p.fxaa,
        None => false,
    };
    let downscaled: bool = match scale {
        Some(s) => s.factor != 1,
        None => false,
    };
    on && !downscaled
}

/// Words per entry that the shaders lay down.
#[derive(Debug, Clone, Copy, PartialEq, Eq, Structural)]
pub struct GiWords {
    pub reservoir: u32,
    pub guide: u32,
    pub history: u32,
    pub face: u32,
    pub secondary: u32,
}

/// Sizes of everything that has the size of the illumination grid, in bytes.
#[derive(Debug, Clone, Copy, PartialEq, Eq, Structural)]
pub struct GiTargets {
    pub size: UVec2,
    pub reservoir_bytes: u64,
    pub guide_bytes: u64,
    pub history_bytes: u64,
    /// One number per pixel.
    pub phi_bytes: u64,
    /// Slots of the face tables.
    pub face_slots: u64,
    pub face_bytes: u64,
    pub secondary_bytes: u64,
}

/// Buffers have at least one word.
pub open spec fn at_least_word(n: int) -> int {
    if n < 4 {
        4
    } else {
        n
    }
}

/// Pixels of a size.
pub open spec fn pixels(s: UVec2) -> int {
    s.x * s.y
}

/// `n` is the least power of two that holds `want` slots, but at least 2^8 and at most 2^21.
pub open spec fn is_slot_count(n: int, want: int) -> bool {
    exists|k: nat|
        8 <= k <= 21 && n == #[trigger] pow2(k) && (n >= want || k == 21) && (k == 8 || pow2(
            (k - 1) as nat,
        ) < want)
}

/// The sizes for a grid.
pub open spec fn is_targets(t: GiTargets, size: UVec2, w: GiWords) -> bool {
    &&& t.size == size
    &&& t.reservoir_bytes == at_least_word(pixels(size) * w.reservoir * 4)
    &&& t.guide_bytes == at_least_word(pixels(size) * w.guide * 4)
    &&& t.history_bytes == at_least_word(pixels(size) * w.history * 4)
    &&& t.phi_bytes == at_least_word(pixels(size) * 4)
    &&& is_slot_count(t.face_slots as int, 2 * pixels(size))
    &&& t.face_bytes == at_least_word(t.face_slots * w.face * 4)
    &&& t.secondary_bytes == at_least_word(t.face_slots * w.secondary * 4)
}

/// The sizes can be told.
pub open spec fn targets_fit(size: UVec2, w: GiWords) -> bool {
    &&& 2 * pixels(size) <= u64::MAX
    &&& pixels(size) * w.reservoir * 4 <= u64::MAX
    &&& pixels(size) * w.guide * 4 <= u64::MAX
    &&& pixels(size) * w.history * 4 <= u64::MAX
    &&& pixels(size) * 4 <= u64::MAX
}

fn words_bytes(n: u64, words: u32) -> (r: u64)
    requires
        n * words * 4 <= u64::MAX,
    ensures
        r == at_least_word(n * words * 4),
{
    assert(0 <= n * words <= n * words * 4) by (nonlinear_arith)
        requires
            n >= 0,
            words >= 0,
    ;
    let b: u64 = n * words as u64 * 4;
    if b > 4 {
        b
    } else {
        4
    }
}

fn slot_count(want: u64) -> (r: u64)
    ensures
        is_slot_count(r as int, want as int),
        r <= 2097152,
{
    let mut n: u64 = 256;
    let ghost mut k: nat = 8;
    proof {
        vstd::arithmetic::power2::lemma2_to64();
    }
    while n < want && n < 2097152
        invariant
            8 <= k <= 21,
            n == pow2(k),
            n <= 2097152,
            n == 2097152 <==> k == 21,
            k == 8 || pow2((k - 1) as nat) < want,
        decreases 21 - k,
    {
        proof {
            vstd::arithmetic::power2::lemma2_to64();
            vstd::arithmetic::power2::lemma_pow2_unfold(k + 1);
            if k < 20 {
                vstd::arithmetic::power2::lemma_pow2_strictly_increases(k + 1, 21);
            }
            k = k + 1;
            assert((k - 1) as nat + 1 == k);
        }
        n = n * 2;
    }
    proof {
        assert(n >= want || k == 21);
        assert(n == pow2(k));
    }
    n
}

fn make_targets(size: UVec2, w: &GiWords) -> (t: GiTargets)
    requires
        targets_fit(size, *w),
    ensures
        is_targets(t, size, *w),
{
    assert(0 <= size.x * size.y) by (nonlinear_arith)
        requires
            size.x >= 0,
            size.y >= 0,
    ;
    let px: u64 = size.x as u64 * size.y as u64;
    let face_slots: u64 = slot_count(px * 2);
    proof {
        assert(face_slots * w.face * 4 <= u64::MAX) by (nonlinear_arith)
            requires
                face_slots <= 2097152,
                w.face <= 0xFFFF_FFFF,
                face_slots >= 0,
                w.face >= 0,
        ;
        assert(face_slots * w.secondary * 4 <= u64::MAX) by (nonlinear_arith)
            requires
                face_slots <= 2097152,
                w.secondary <= 0xFFFF_FFFF,
                face_slots >= 0,
                w.secondary >= 0,
        ;
    }
    GiTargets {
        size,
        reservoir_bytes: words_bytes(px, w.reservoir),
        guide_bytes: words_bytes(px, w.guide),
        history_bytes: words_bytes(px, w.history),
        phi_bytes: words_bytes(px, 1),
        face_slots,
        face_bytes: words_bytes(face_slots, w.face),
        secondary_bytes: words_bytes(face_slots, w.secondary),
    }
}

/// What is kept from frame to frame.
#[derive(Debug, Clone, Copy, PartialEq, Eq, Structural)]
pub struct AuxTargets {
    /// Size of the beam texture, once it is there.
    pub beam_size: Option<UVec2>,
    /// Size of the illumination grid, once its textures are there.
    pub gi_size: Option<UVec2>,
    /// The denoiser's small buffer is there.
    pub den_cfg: bool,
    /// Kernel radius that it holds.
    pub den_cfg_r: u32,
    /// Which history buffer is read.
    pub den_flip: bool,
}

/// What a frame has to make, write and bind.
#[derive(Debug, Clone, Copy, PartialEq, Eq, Structural)]
pub struct DdaPrepare {
    /// Make the beam texture with this size.
    pub make_beam: Option<UVec2>,
    /// Make everything that has the size of the illumination grid.
    pub make_gi: Option<GiTargets>,
    /// Make the denoiser's small buffer.
    pub make_den_cfg: bool,
    /// Write this kernel radius to it.
    pub write_radius: Option<u32>,
    /// The main pass samples the denoised result; otherwise what was traced.
    pub sample_denoised: bool,
    /// History that the last frame wrote: 0 or 1.
    pub hist_prev: usize,
    /// History that this frame writes.
    pub hist_cur: usize,
}

/// Size of the beam texture: a quarter of the target, rounded up.
pub open spec fn beam_size_of(size: UVec2) -> UVec2 {
    UVec2 { x: ((size.x + 3) / 4) as u32, y: ((size.y + 3) / 4) as u32 }
}

/// Settings in force: the defaults when there are none.
pub open spec fn settings_of(gi: Option<GiSettings>) -> GiSettings {
    match gi {
        Some(g) => g,
        None => GiSettings { enabled: true, gi_div: 4, denoise: 1, sun_bounce: false },
    }
}

/// The denoiser's plan.
pub open spec fn plan_of(s: GiSettings, c: DenoiseConsts) -> DenoisePlan {
    if s.tier_of() == 0 {
        DenoisePlan { on: false, rounds: 0, radius: c.radius_fast }
    } else if s.tier_of() == 1 {
        DenoisePlan { on: true, rounds: c.rounds, radius: c.radius_fast }
    } else {
        DenoisePlan { on: true, rounds: c.rounds, radius: c.radius }
    }
}

impl AuxTargets {
    pub fn new() -> (r: Self)
        ensures
            r == (AuxTargets {
                beam_size: None,
                gi_size: None,
                den_cfg: false,
                den_cfg_r: 0,
                den_flip: false,
            }),
    {
        AuxTargets { beam_size: None, gi_size: None, den_cfg: false, den_cfg_r: 0, den_flip: false }
    }

    /// Prepares a frame: what has the wrong size is made anew, all of it together.
    pub fn prepare(
        &mut self,
        size: UVec2,
        gi: Option<GiSettings>,
        words: &GiWords,
        den: &DenoiseConsts,
    ) -> (r: DdaPrepare)
        requires
            targets_fit(settings_of(gi).grid_size(size), *words),
        ensures
            final(self).beam_size == Some(beam_size_of(size)),
            r.make_beam == (if old(self).beam_size == Some(beam_size_of(size)) {
                None
            } else {
                Some(beam_size_of(size))
            }),
            final(self).gi_size == Some(settings_of(gi).grid_size(size)),
            r.make_gi is Some <==> old(self).gi_size != final(self).gi_size,
            r.make_gi is Some ==> is_targets(
                r.make_gi->0,
                settings_of(gi).grid_size(size),
                *words,
            ),
            r.sample_denoised == plan_of(settings_of(gi), *den).on,
            r.make_den_cfg == !old(self).den_cfg,
            final(self).den_cfg,
            final(self).den_cfg_r == plan_of(settings_of(gi), *den).radius,
            r.write_radius == (if old(self).den_cfg_r == final(self).den_cfg_r {
                None
            } else {
                Some(final(self).den_cfg_r)
            }),
            r.hist_prev == (if old(self).den_flip {
                1int
            } else {
                0
            }),
            r.hist_cur == 1 - r.hist_prev,
            final(self).den_flip == (if gi is Some && gi->0.enabled {
                !old(self).den_flip
            } else {
                old(self).den_flip
            }),
    {
        let beam: UVec2 = UVec2 { x: div_ceil(size.x, BEAM_DIV), y: div_ceil(size.y, BEAM_DIV) };
        let make_beam: Option<UVec2> = match self.beam_size {
            Some(b) => if b == beam {
                None
            } else {
                Some(beam)
            },
            None => Some(beam),
        };
        self.beam_size = Some(beam);
        let s: GiSettings = match gi {
            Some(g) => g,
            None => GiSettings::default(),
        };
        let gi_size: UVec2 = s.gi_size(size);
        let same: bool = match self.gi_size {
            Some(g) => g == gi_size,
            None => false,
        };
        let make_gi: Option<GiTargets> = if same {
            None
        } else {
            Some(make_targets(gi_size, words))
        };
        self.gi_size = Some(gi_size);
        let plan: DenoisePlan = s.denoise_plan(den);
        let make_den_cfg: bool = !self.den_cfg;
        self.den_cfg = true;
        let write_radius: Option<u32> = if self.den_cfg_r != plan.radius {
            self.den_cfg_r = plan.radius;
            Some(plan.radius)
        } else {
            None
        };
        let (hist_prev, hist_cur): (usize, usize) = if self.den_flip { (1, 0) } else { (0, 1) };
        let runs: bool = match gi {
            Some(g) => g.enabled,
            None => false,
        };
        if runs {
            self.den_flip = !self.den_flip;
        }
        DdaPrepare {
            make_beam,
            make_gi,
            make_den_cfg,
            write_radius,
            sample_denoised: plan.on,
            hist_prev,
            hist_cur,
        }
    }
}

/// Number of source and target pairs that filter rounds use.
pub const DEN_ATROUS_CHAINS: usize = 6;

/// Source and target of a pair: 0 is the temporal filter's result, 1 and 2 hold what is between, and
/// 3 is the final result.
pub open spec fn chain(i: int) -> (int, int) {
    if i == 0 {
        (0, 1)
    } else if i == 1 {
        (1, 2)
    } else if i == 2 {
        (2, 3)
    } else if i == 3 {
        (0, 3)
    } else if i == 4 {
        (1, 3)
    } else {
        (2, 1)
    }
}

/// Source and target of a pair.
pub fn den_atrous_chain(i: usize) -> (r: (usize, usize))
    requires
        i < DEN_ATROUS_CHAINS,
    ensures
        (r.0 as int, r.1 as int) == chain(i as int),
{
    if i == 0 {
        (0, 1)
    } else if i == 1 {
        (1, 2)
    } else if i == 2 {
        (2, 3)
    } else if i == 3 {
        (0, 3)
    } else if i == 4 {
        (1, 3)
    } else {
        (2, 1)
    }
}

/// The pair that round `i` of `n` uses: the targets in between alternate, and the last round writes
/// the final result.
pub open spec fn round_chain(n: int, i: int) -> int {
    if i == n - 1 {
        if n == 1 {
            3
        } else if n % 2 == 0 {
            4
        } else {
            2
        }
    } else if i == 0 {
        0
    } else if i % 2 == 1 {
        1
    } else {
        5
    }
}

/// The pair that round `i` of `n` uses.
pub fn den_atrous_round(n: usize, i: usize) -> (r: usize)
    requires
        1 <= n <= 5,
        i < n,
    ensures
        r == round_chain(n as int, i as int),
        r < DEN_ATROUS_CHAINS,
{
    if i == n - 1 {
        if n == 1 {
            3
        } else if n % 2 == 0 {
            4
        } else {
            2
        }
    } else if i == 0 {
        0
    } else if i % 2 == 1 {
        1
    } else {
        5
    }
}

/// Rounds form a chain: the first reads the temporal filter's result, each other one what the round
/// before it wrote, the last writes the final result, and none writes what it reads.
pub proof fn lemma_rounds_chain(n: int, i: int)
    requires
        1 <= n <= 5,
        0 <= i < n,
    ensures
        i == 0 ==> chain(round_chain(n, i)).0 == 0,
        i > 0 ==> chain(round_chain(n, i)).0 == chain(round_chain(n, i - 1)).1,
        i == n - 1 <==> chain(round_chain(n, i)).1 == 3,
        chain(round_chain(n, i)).0 != chain(round_chain(n, i)).1,
{
}

/// A pass of a frame.
#[derive(Debug, Clone, Copy, PartialEq, Eq, Structural)]
pub enum DdaPass {
    /// Distance of what can be hit, for blocks of pixels.
    Beam { x: u32, y: u32 },
    /// Empties the face table.
    ClearFaces,
    Gi { x: u32, y: u32 },
    /// Gives every face one value.
    Flatten { x: u32, y: u32 },
    Temporal { x: u32, y: u32 },
    /// A filter round with its pair of textures.
    Atrous { round: usize, chain: usize, x: u32, y: u32 },
    FaceAccum { x: u32, y: u32 },
    Face { x: u32, y: u32 },
    /// Light shafts.
    Fog,
    Trace { x: u32, y: u32 },
    EyeHistogram,
    EyeUpdate,
}

/// What is there.
#[derive(Debug, Clone, Copy)]
pub struct DdaReady {
    /// Bindings that all passes share.
    pub common: bool,
    pub beam: bool,
    /// Textures of the illumination grid.
    pub aux: bool,
    pub face_table: bool,
    /// Bindings and pipeline of the illumination pass.
    pub gi: bool,
    pub flatten: bool,
    /// The denoiser's pipelines.
    pub denoiser: bool,
    pub temporal: bool,
    pub atrous: [bool; 5],
    pub face_accum: bool,
    pub face: bool,
    /// What the main pass reads of the light shafts.
    pub fog_read: bool,
    pub trace: bool,
    pub eye: bool,
}

/// What a frame renders.
#[derive(Debug, Clone, Copy, PartialEq, Eq, Structural)]
pub struct DdaFrame {
    pub size: UVec2,
    pub gi_size: UVec2,
    pub gi_enabled: bool,
    /// Filter rounds of the denoiser's plan.
    pub rounds: u32,
    pub eye_enabled: bool,
    /// The beam pass is not switched off.
    pub beam_on: bool,
}

/// Groups of eight that cover `n`.
pub open spec fn groups8(n: int) -> int {
    (n + 7) / 8
}

/// `p`, if it runs.
pub open spec fn when(runs: bool, p: DdaPass) -> Seq<DdaPass> {
    if runs {
        seq![p]
    } else {
        Seq::empty()
    }
}

impl DdaFrame {
    pub open spec fn grid_groups(self) -> (u32, u32) {
        (groups8(self.gi_size.x as int) as u32, groups8(self.gi_size.y as int) as u32)
    }

    /// Filter rounds: at most five.
    pub open spec fn round_count(self) -> int {
        if self.rounds < 5 {
            self.rounds as int
        } else {
            5
        }
    }

    /// `base`, and the first `n` filter rounds as far as they are ready.
    pub open spec fn after_rounds(self, base: Seq<DdaPass>, ready: DdaReady, n: nat) -> Seq<DdaPass>
        decreases n,
    {
        if n == 0 {
            base
        } else {
            let (x, y) = self.grid_groups();
            self.after_rounds(base, ready, (n - 1) as nat) + when(
                ready.atrous[n - 1],
                DdaPass::Atrous {
                    round: (n - 1) as usize,
                    chain: round_chain(self.round_count(), n - 1) as usize,
                    x,
                    y,
                },
            )
        }
    }

    /// `base`, and the denoiser's passes.
    pub open spec fn after_denoiser(self, base: Seq<DdaPass>, ready: DdaReady) -> Seq<DdaPass> {
        let (x, y) = self.grid_groups();
        let n = self.round_count();
        if ready.denoiser && n > 0 {
            self.after_rounds(
                base + when(ready.temporal, DdaPass::Temporal { x, y }),
                ready,
                n as nat,
            )
        } else {
            base
        }
    }

    /// `base`, and the passes that make the indirect light.
    pub open spec fn after_light(self, base: Seq<DdaPass>, ready: DdaReady) -> Seq<DdaPass> {
        let (x, y) = self.grid_groups();
        if !self.gi_enabled || !ready.aux {
            base
        } else {
            let traced = base + when(ready.gi && ready.face_table, DdaPass::ClearFaces) + when(
                ready.gi,
                DdaPass::Gi { x, y },
            ) + when(ready.flatten, DdaPass::Flatten { x, y });
            self.after_denoiser(traced, ready) + when(
                ready.face_accum,
                DdaPass::FaceAccum { x, y },
            ) + when(ready.face, DdaPass::Face { x, y })
        }
    }

    /// The passes of a frame, in order. Without what it reads of the light shafts neither the main
    /// pass runs nor anything after it.
    pub open spec fn passes(self, ready: DdaReady) -> Seq<DdaPass> {
        let bx = groups8(beam_size_of(self.size).x as int) as u32;
        let by = groups8(beam_size_of(self.size).y as int) as u32;
        let x = groups8(self.size.x as int) as u32;
        let y = groups8(self.size.y as int) as u32;
        if !ready.common {
            Seq::empty()
        } else {
            let beam = when(self.beam_on && ready.beam, DdaPass::Beam { x: bx, y: by });
            let lit = self.after_light(beam, ready).push(DdaPass::Fog);
            if ready.fog_read {
                lit + when(ready.trace, DdaPass::Trace { x, y }) + when(
                    self.eye_enabled && ready.eye,
                    DdaPass::EyeHistogram,
                ) + when(self.eye_enabled && ready.eye, DdaPass::EyeUpdate)
            } else {
                lit
            }
        }
    }

    fn push_denoiser(&self, ready: &DdaReady, r: &mut Vec<DdaPass>)
        ensures
            final(r)@ == self.after_denoiser(old(r)@, *ready),
    {
        let n: usize = if self.rounds < 5 { self.rounds as usize } else { 5 };
        if !ready.denoiser || n == 0 {
            return ;
        }
        let x: u32 = div_ceil(self.gi_size.x, DDA_WORKGROUP_SIZE);
        let y: u32 = div_ceil(self.gi_size.y, DDA_WORKGROUP_SIZE);
        push_when(r, ready.temporal, DdaPass::Temporal { x, y });
        let ghost base = r@;
        let mut i: usize = 0;
        while i < n
            invariant
                i <= n <= 5,
                n == self.round_count(),
                (x, y) == self.grid_groups(),
                r@ == self.after_rounds(base, *ready, i as nat),
            decreases n - i,
        {
            push_when(
                r,
                ready.atrous[i],
                DdaPass::Atrous { round: i, chain: den_atrous_round(n, i), x, y },
            );
            i += 1;
        }
    }

    fn push_light(&self, ready: &DdaReady, r: &mut Vec<DdaPass>)
        ensures
            final(r)@ == self.after_light(old(r)@, *ready),
    {
        if !self.gi_enabled || !ready.aux {
            return ;
        }
        let x: u32 = div_ceil(self.gi_size.x, DDA_WORKGROUP_SIZE);
        let y: u32 = div_ceil(self.gi_size.y, DDA_WORKGROUP_SIZE);
        push_when(r, ready.gi && ready.face_table, DdaPass::ClearFaces);
        push_when(r, ready.gi, DdaPass::Gi { x, y });
        push_when(r, ready.flatten, DdaPass::Flatten { x, y });
        self.push_denoiser(ready, r);
        push_when(r, ready.face_accum, DdaPass::FaceAccum { x, y });
        push_when(r, ready.face, DdaPass::Face { x, y });
    }

    /// The passes of a frame, in order.
    pub fn dispatch_dda(&self, ready: &DdaReady) -> (r: Vec<DdaPass>)
        ensures
            r@ == self.passes(*ready),
    {
        let mut r: Vec<DdaPass> = Vec::new();
        if !ready.common {
            return r;
        }
        let bx: u32 = div_ceil(div_ceil(self.size.x, BEAM_DIV), WORKGROUP_SIZE);
        let by: u32 = div_ceil(div_ceil(self.size.y, BEAM_DIV), WORKGROUP_SIZE);
        push_when(&mut r, self.beam_on && ready.beam, DdaPass::Beam { x: bx, y: by });
        proof {
            let p = DdaPass::Beam { x: bx, y: by };
            assert(Seq::<DdaPass>::empty() + when(self.beam_on && ready.beam, p) =~= when(
                self.beam_on && ready.beam,
                p,
            ));
        }
        self.push_light(ready, &mut r);
        r.push(DdaPass::Fog);
        if ready.fog_read {
            let x: u32 = div_ceil(self.size.x, DDA_WORKGROUP_SIZE);
            let y: u32 = div_ceil(self.size.y, DDA_WORKGROUP_SIZE);
            push_when(&mut r, ready.trace, DdaPass::Trace { x, y });
            push_when(&mut r, self.eye_enabled && ready.eye, DdaPass::EyeHistogram);
            push_when(&mut r, self.eye_enabled && ready.eye, DdaPass::EyeUpdate);
        }
        r
    }
}

fn push_when(r: &mut Vec<DdaPass>, runs: bool, p: DdaPass)
    ensures
        final(r)@ == old(r)@ + when(runs, p),
{
    if runs {
        r.push(p);
    }
    proof {
        assert(r@ =~= old(r)@ + when(runs, p));
    }
}

/// What a frame writes to the exposure buffer.
#[derive(Debug, Clone, Copy, PartialEq, Eq, Structural)]
pub struct EyeWrites {
    /// Make the buffer, with exposure 1 and the parameters.
    pub make: bool,
    /// The frame's duration.
    pub dt: bool,
    pub params: bool,
    /// Exposure 1: adaptation was switched off.
    pub reset_exposure: bool,
}

/// What a frame writes to the exposure buffer: its duration while adaptation is on, and the
/// parameters when they have changed.
pub fn eye_writes(made: bool, enabled: bool, settings_dirty: bool) -> (r: EyeWrites)
    ensures
        r.make == !made,
        r.dt == enabled,
        r.params == settings_dirty,
        r.reset_exposure == (settings_dirty && !enabled),
{
    EyeWrites {
        make: !made,
        dt: enabled,
        params: settings_dirty,
        reset_exposure: settings_dirty && !enabled,
    }
}

/// Workgroups of eight cover the pixels, and none of them is idle.
pub proof fn lemma_groups_cover(n: int)
    requires
        0 <= n,
    ensures
        8 * (groups8(n) - 1) < n <= 8 * groups8(n),
{
}

/// The beam texture has a texel for each block of four by four pixels, none without a pixel.
pub proof fn lemma_beam_covers(size: UVec2)
    ensures
        4 * (beam_size_of(size).x - 1) < size.x <= 4 * beam_size_of(size).x,
        4 * (beam_size_of(size).y - 1) < size.y <= 4 * beam_size_of(size).y,
{
}

/// `x` by `y` groups of eight cover a picture of `w` by `h`, and no group lies beside it.
pub open spec fn groups_cover(x: u32, y: u32, w: int, h: int) -> bool {
    &&& 8 * (x - 1) < w <= 8 * x
    &&& 8 * (y - 1) < h <= 8 * y
}

impl DdaFrame {
    /// The pass covers its picture: the render target, in blocks of four by four pixels or pixel by
    /// pixel, or the illumination grid.
    pub open spec fn covered_by(self, p: DdaPass) -> bool {
        let (w, h) = (self.gi_size.x as int, self.gi_size.y as int);
        match p {
            DdaPass::Beam { x, y } => 32 * (x - 1) < self.size.x <= 32 * x && 32 * (y - 1)
                < self.size.y <= 32 * y,
            DdaPass::Gi { x, y } => groups_cover(x, y, w, h),
            DdaPass::Flatten { x, y } => groups_cover(x, y, w, h),
            DdaPass::Temporal { x, y } => groups_cover(x, y, w, h),
            DdaPass::Atrous { round, chain, x, y } => groups_cover(x, y, w, h),
            DdaPass::FaceAccum { x, y } => groups_cover(x, y, w, h),
            DdaPass::Face { x, y } => groups_cover(x, y, w, h),
            DdaPass::Trace { x, y } => groups_cover(x, y, self.size.x as int, self.size.y as int),
            _ => true,
        }
    }
}

/// A pass's place in a frame.
pub open spec fn place(p: DdaPass) -> int {
    match p {
        DdaPass::Beam { x, y } => 0,
        DdaPass::ClearFaces => 1,
        DdaPass::Gi { x, y } => 2,
        DdaPass::Flatten { x, y } => 3,
        DdaPass::Temporal { x, y } => 4,
        DdaPass::Atrous { round, chain, x, y } => 5 + round,
        DdaPass::FaceAccum { x, y } => 10,
        DdaPass::Face { x, y } => 11,
        DdaPass::Fog => 12,
        DdaPass::Trace { x, y } => 13,
        DdaPass::EyeHistogram => 14,
        DdaPass::EyeUpdate => 15,
    }
}

/// The passes stand in the order of their places, below place `end`, and cover their pictures.
spec fn in_turn(f: DdaFrame, s: Seq<DdaPass>, end: int) -> bool {
    &&& forall|i: int, j: int| 0 <= i < j < s.len() ==> place(#[trigger] s[i]) < place(#[trigger] s[j])
    &&& forall|i: int| 0 <= i < s.len() ==> place(#[trigger] s[i]) < end && f.covered_by(s[i])
}

/// Some pass has place `k`.
pub open spec fn runs_at(s: Seq<DdaPass>, k: int) -> bool {
    exists|i: int| 0 <= i < s.len() && place(#[trigger] s[i]) == k
}

proof fn lemma_appended(f: DdaFrame, s: Seq<DdaPass>, runs: bool, p: DdaPass)
    requires
        in_turn(f, s, place(p)),
        f.covered_by(p),
    ensures
        in_turn(f, s + when(runs, p), place(p) + 1),
        forall|k: int| #[trigger]
            runs_at(s + when(runs, p), k) <==> runs_at(s, k) || (runs && k == place(p)),
{
    let r = s + when(runs, p);
    assert forall|k: int| #[trigger] runs_at(r, k) <==> runs_at(s, k) || (runs && k == place(p)) by {
        if runs_at(s, k) {
            let i = choose|i: int| 0 <= i < s.len() && place(#[trigger] s[i]) == k;
            assert(r[i] == s[i]);
        }
        if runs && k == place(p) {
            assert(r[s.len() as int] == p);
        }
        if runs_at(r, k) {
            let i = choose|i: int| 0 <= i < r.len() && place(#[trigger] r[i]) == k;
            if i < s.len() {
                assert(r[i] == s[i]);
            } else {
                assert(r[i] == p);
            }
        }
    }
    assert forall|i: int, j: int| 0 <= i < j < r.len() implies place(#[trigger] r[i]) < place(
        #[trigger] r[j],
    ) by {
        assert(r[i] == s[i]);
        if j < s.len() {
            assert(r[j] == s[j]);
        } else {
            assert(r[j] == p);
        }
    }
    assert forall|i: int| 0 <= i < r.len() implies place(#[trigger] r[i]) < place(p) + 1
        && f.covered_by(r[i]) by {
        if i < s.len() {
            assert(r[i] == s[i]);
        } else {
            assert(r[i] == p);
        }
    }
}

proof fn lemma_later(f: DdaFrame, s: Seq<DdaPass>, a: int, b: int)
    requires
        in_turn(f, s, a),
        a <= b,
    ensures
        in_turn(f, s, b),
{
    assert forall|i: int| 0 <= i < s.len() implies place(#[trigger] s[i]) < b && f.covered_by(s[i]) by {}
}

proof fn lemma_rounds_in_turn(f: DdaFrame, base: Seq<DdaPass>, ready: DdaReady, n: nat)
    requires
        n <= f.round_count(),
        in_turn(f, base, 5),
    ensures
        in_turn(f, f.after_rounds(base, ready, n), 5 + n as int),
        forall|k: int| #[trigger]
            runs_at(f.after_rounds(base, ready, n), k) <==> runs_at(base, k) || (5 <= k < 5 + n
                && ready.atrous[k - 5]),
    decreases n,
{
    if n > 0 {
        lemma_rounds_in_turn(f, base, ready, (n - 1) as nat);
        let (x, y) = f.grid_groups();
        let p = DdaPass::Atrous {
            round: (n - 1) as usize,
            chain: round_chain(f.round_count(), n - 1) as usize,
            x,
            y,
        };
        lemma_groups_cover(f.gi_size.x as int);
        lemma_groups_cover(f.gi_size.y as int);
        assert(groups_cover(x, y, f.gi_size.x as int, f.gi_size.y as int));
        lemma_appended(f, f.after_rounds(base, ready, (n - 1) as nat), ready.atrous[n - 1], p);
    }
}

proof fn lemma_pictures(f: DdaFrame)
    ensures
        ({
            let b = beam_size_of(f.size);
            let (x, y) = f.grid_groups();
            &&& f.covered_by(
                DdaPass::Beam { x: groups8(b.x as int) as u32, y: groups8(b.y as int) as u32 },
            )
            &&& f.covered_by(DdaPass::Gi { x, y })
            &&& f.covered_by(DdaPass::Flatten { x, y })
            &&& f.covered_by(DdaPass::Temporal { x, y })
            &&& f.covered_by(DdaPass::FaceAccum { x, y })
            &&& f.covered_by(DdaPass::Face { x, y })
            &&& f.covered_by(
                DdaPass::Trace {
                    x: groups8(f.size.x as int) as u32,
                    y: groups8(f.size.y as int) as u32,
                },
            )
        }),
{
    let b = beam_size_of(f.size);
    lemma_beam_covers(f.size);
    lemma_groups_cover(b.x as int);
    lemma_groups_cover(b.y as int);
    lemma_groups_cover(f.gi_size.x as int);
    lemma_groups_cover(f.gi_size.y as int);
    lemma_groups_cover(f.size.x as int);
    lemma_groups_cover(f.size.y as int);
}

/// Whether a pass at place `k` of the illumination runs.
spec fn light_runs(f: DdaFrame, ready: DdaReady, k: int) -> bool {
    let filtered = ready.denoiser && f.rounds > 0;
    f.gi_enabled && ready.aux && {
        ||| k == 1 && ready.gi && ready.face_table
        ||| k == 2 && ready.gi
        ||| k == 3 && ready.flatten
        ||| k == 4 && filtered && ready.temporal
        ||| 5 <= k < 10 && filtered && k - 5 < f.rounds && ready.atrous[k - 5]
        ||| k == 10 && ready.face_accum
        ||| k == 11 && ready.face
    }
}

proof fn lemma_light_in_turn(f: DdaFrame, base: Seq<DdaPass>, ready: DdaReady)
    requires
        in_turn(f, base, 1),
    ensures
        in_turn(f, f.after_light(base, ready), 12),
        forall|k: int| #[trigger]
            runs_at(f.after_light(base, ready), k) <==> runs_at(base, k) || light_runs(f, ready, k),
{
    lemma_pictures(f);
    let (x, y) = f.grid_groups();
    let lit = f.after_light(base, ready);
    if f.gi_enabled && ready.aux {
        let t1 = base + when(ready.gi && ready.face_table, DdaPass::ClearFaces);
        lemma_appended(f, base, ready.gi && ready.face_table, DdaPass::ClearFaces);
        let t2 = t1 + when(ready.gi, DdaPass::Gi { x, y });
        lemma_appended(f, t1, ready.gi, DdaPass::Gi { x, y });
        let t3 = t2 + when(ready.flatten, DdaPass::Flatten { x, y });
        lemma_appended(f, t2, ready.flatten, DdaPass::Flatten { x, y });
        let den = f.after_denoiser(t3, ready);
        let n = f.round_count();
        if ready.denoiser && n > 0 {
            let t4 = t3 + when(ready.temporal, DdaPass::Temporal { x, y });
            lemma_appended(f, t3, ready.temporal, DdaPass::Temporal { x, y });
            lemma_rounds_in_turn(f, t4, ready, n as nat);
            lemma_later(f, den, 5 + n, 10);
        } else {
            lemma_later(f, den, 4, 10);
        }
        let t5 = den + when(ready.face_accum, DdaPass::FaceAccum { x, y });
        lemma_appended(f, den, ready.face_accum, DdaPass::FaceAccum { x, y });
        lemma_appended(f, t5, ready.face, DdaPass::Face { x, y });
        assert(lit == t5 + when(ready.face, DdaPass::Face { x, y }));
        assert forall|k: int| #[trigger] runs_at(lit, k) <==> runs_at(base, k) || light_runs(
            f,
            ready,
            k,
        ) by {
            assert(runs_at(t5, k) <==> runs_at(den, k) || (ready.face_accum && k == 10));
            assert(runs_at(t3, k) <==> runs_at(t2, k) || (ready.flatten && k == 3));
            assert(runs_at(t2, k) <==> runs_at(t1, k) || (ready.gi && k == 2));
            assert(runs_at(t1, k) <==> runs_at(base, k) || (ready.gi && ready.face_table && k == 1));
            if ready.denoiser && n > 0 {
                let t4 = t3 + when(ready.temporal, DdaPass::Temporal { x, y });
                assert(runs_at(t4, k) <==> runs_at(t3, k) || (ready.temporal && k == 4));
            }
        }
    } else {
        lemma_later(f, base, 1, 12);
    }
}

/// The passes of a frame come in the order in which they use each other's results, each at most once,
/// and each covers its picture with groups of eight by eight. Which ones run follows from what is
/// switched on and ready: nothing without the shared bindings; the illumination passes only where the
/// illumination is on and has its textures, and its filter rounds, five at most, only with the
/// denoiser; the main pass and what follows it only where the light shafts can be read.
#[verifier::spinoff_prover]
#[verifier::rlimit(50)]
pub proof fn lemma_passes(f: DdaFrame, ready: DdaReady)
    ensures
        ({
            let s = f.passes(ready);
            let lit = ready.common && f.gi_enabled && ready.aux;
            let filtered = lit && ready.denoiser && f.rounds > 0;
            let seen = ready.common && ready.fog_read;
            &&& forall|i: int, j: int|
                0 <= i < j < s.len() ==> place(#[trigger] s[i]) < place(#[trigger] s[j])
            &&& forall|i: int| 0 <= i < s.len() ==> f.covered_by(#[trigger] s[i])
            &&& runs_at(s, 0) <==> ready.common && f.beam_on && ready.beam
            &&& runs_at(s, 1) <==> lit && ready.gi && ready.face_table
            &&& runs_at(s, 2) <==> lit && ready.gi
            &&& runs_at(s, 3) <==> lit && ready.flatten
            &&& runs_at(s, 4) <==> filtered && ready.temporal
            &&& forall|k: int|
                0 <= k < 5 ==> (#[trigger] runs_at(s, 5 + k) <==> filtered && k < f.rounds
                    && ready.atrous[k])
            &&& runs_at(s, 10) <==> lit && ready.face_accum
            &&& runs_at(s, 11) <==> lit && ready.face
            &&& runs_at(s, 12) <==> ready.common
            &&& runs_at(s, 13) <==> seen && ready.trace
            &&& runs_at(s, 14) <==> seen && f.eye_enabled && ready.eye
            &&& runs_at(s, 15) <==> seen && f.eye_enabled && ready.eye
        }),
{
    let s = f.passes(ready);
    if ready.common {
        let none = Seq::<DdaPass>::empty();
        let b = beam_size_of(f.size);
        let first = DdaPass::Beam { x: groups8(b.x as int) as u32, y: groups8(b.y as int) as u32 };
        let main = DdaPass::Trace {
            x: groups8(f.size.x as int) as u32,
            y: groups8(f.size.y as int) as u32,
        };
        lemma_pictures(f);
        assert forall|k: int| !#[trigger] runs_at(none, k) by {}
        let beam = when(f.beam_on && ready.beam, first);
        lemma_appended(f, none, f.beam_on && ready.beam, first);
        assert(none + beam =~= beam);
        let lit = f.after_light(beam, ready);
        lemma_light_in_turn(f, beam, ready);
        let fogged = lit.push(DdaPass::Fog);
        lemma_appended(f, lit, true, DdaPass::Fog);
        assert(fogged =~= lit + when(true, DdaPass::Fog));
        let eye = f.eye_enabled && ready.eye;
        let t6 = fogged + when(ready.trace, main);
        let t7 = t6 + when(eye, DdaPass::EyeHistogram);
        if ready.fog_read {
            lemma_appended(f, fogged, ready.trace, main);
            lemma_appended(f, t6, eye, DdaPass::EyeHistogram);
            lemma_appended(f, t7, eye, DdaPass::EyeUpdate);
        }
        assert forall|k: int| #[trigger] runs_at(s, k) <==> {
            ||| k == 0 && f.beam_on && ready.beam
            ||| light_runs(f, ready, k)
            ||| k == 12
            ||| k == 13 && ready.fog_read && ready.trace
            ||| (k == 14 || k == 15) && ready.fog_read && eye
        } by {
            assert(runs_at(beam, k) <==> f.beam_on && ready.beam && k == 0);
            assert(runs_at(lit, k) <==> runs_at(beam, k) || light_runs(f, ready, k));
            assert(runs_at(fogged, k) <==> runs_at(lit, k) || k == 12);
            if ready.fog_read {
                assert(runs_at(t6, k) <==> runs_at(fogged, k) || (ready.trace && k == 13));
                assert(runs_at(t7, k) <==> runs_at(t6, k) || (eye && k == 14));
            }
        }
    } else {
        assert forall|k: int| !#[trigger] runs_at(s, k) by {}
    }
}

/// The targets have room for every pixel of the illumination grid, and the face tables for twice as
/// many faces as pixels, up to their largest size, without being more than twice as large as that
/// takes.
pub proof fn lemma_targets(t: GiTargets, size: UVec2, w: GiWords)
    requires
        is_targets(t, size, w),
    ensures
        t.reservoir_bytes >= 4 * (size.x * size.y * w.reservoir),
        t.guide_bytes >= 4 * (size.x * size.y * w.guide),
        t.history_bytes >= 4 * (size.x * size.y * w.history),
        t.phi_bytes >= 4 * (size.x * size.y),
        t.face_bytes >= 4 * (t.face_slots * w.face),
        t.secondary_bytes >= 4 * (t.face_slots * w.secondary),
        t.reservoir_bytes > 4 ==> t.reservoir_bytes == 4 * (size.x * size.y * w.reservoir),
        t.guide_bytes > 4 ==> t.guide_bytes == 4 * (size.x * size.y * w.guide),
        t.history_bytes > 4 ==> t.history_bytes == 4 * (size.x * size.y * w.history),
        t.phi_bytes > 4 ==> t.phi_bytes == 4 * (size.x * size.y),
        t.face_bytes > 4 ==> t.face_bytes == 4 * (t.face_slots * w.face),
        t.secondary_bytes > 4 ==> t.secondary_bytes == 4 * (t.face_slots * w.secondary),
        t.face_slots >= 2 * (size.x * size.y) || t.face_slots == 2097152,
        t.face_slots < 4 * (size.x * size.y) || t.face_slots == 256,
        256 <= t.face_slots <= 2097152,
        exists|k: nat| t.face_slots == pow2(k),
{
    let want = 2 * pixels(size);
    let k = choose|k: nat|
        8 <= k <= 21 && t.face_slots == #[trigger] pow2(k) && (t.face_slots >= want || k == 21) && (k
            == 8 || pow2((k - 1) as nat) < want);
    vstd::arithmetic::power2::lemma2_to64();
    vstd::arithmetic::power2::lemma_pow2_unfold(k);
    if k > 8 {
        vstd::arithmetic::power2::lemma_pow2_strictly_increases(8, k);
    }
    if k < 21 {
        vstd::arithmetic::power2::lemma_pow2_strictly_increases(k, 21);
    }
}

/// The denoiser is off in the lowest tier alone; it has filter rounds only where it is on, and the
/// large kernel only in the two upper tiers.
pub proof fn lemma_denoise_plan(s: GiSettings, c: DenoiseConsts)
    ensures
        plan_of(s, c).on <==> s.denoise > 0,
        plan_of(s, c).rounds == (if s.denoise > 0 {
            c.rounds
        } else {
            0
        }),
        s.denoise <= 1 ==> plan_of(s, c).radius == c.radius_fast,
        s.denoise >= 2 ==> plan_of(s, c).radius == c.radius,
{
}

/// Settings that are there count; without any the grid is a quarter of the target's size and denoised
/// in the lower tier.
pub proof fn lemma_settings(s: GiSettings)
    ensures
        settings_of(Some(s)) == s,
        settings_of(None).enabled,
        settings_of(None).div_of() == 4,
        settings_of(None).tier_of() == 1,
        !settings_of(None).sun_bounce,
{
}

} // verus!
