//! Loading, the arrays of layers, and the table of materials.

use super::layers::{
    box_factor, build_mip_chain, chain, chain_levels, chain_pixels, lemma_chain_len, lemma_packed,
    mip_px_total, pack_layer, packed_metal, packed_rgba,
};
use super::names::{by_name, name_less, same_name, sorted_by_name, Named};
use crate::brickmap::wire::{MaterialAsset, MATERIAL_SLOT_NONE};
use crate::math::UVec2;
use vstd::prelude::*;

verus! {

/// Edge of a layer, in pixels.
pub const GPU_TEX_SIZE: u32 = 1024;

/// Pictures of the longest chain.
pub const PBR_MIP_LEVELS_MAX: u32 = 11;

/// Greatest anisotropy of the sampler.
pub const PBR_ANISOTROPY_CLAMP: u16 = 8;

/// The picture of the demo metal: its entry in the table is made of metal.
pub fn metal_demo_id() -> (r: &'static str)
    ensures
        r@ == "metal_plate"@,
{
    "metal_plate"
}

/// How far a picture has come.
#[derive(Debug, Clone, Copy, PartialEq, Eq, Structural)]
pub enum LoadState {
    Loading,
    Loaded,
    Failed,
}

/// Both pictures are there.
pub open spec fn both_loaded(s: (LoadState, LoadState)) -> bool {
    s.0 == LoadState::Loaded && s.1 == LoadState::Loaded
}

/// A picture will never come.
pub open spec fn one_failed(s: (LoadState, LoadState)) -> bool {
    s.0 == LoadState::Failed || s.1 == LoadState::Failed
}

/// Loading, frame by frame. Materials are told by their number.
#[derive(Debug)]
pub struct PbrLoad {
    pub started: bool,
    /// Still on their way.
    pub pending: Vec<usize>,
    /// There, in the order in which they came.
    pub ready: Vec<usize>,
    pub done: bool,
}

/// What a frame does.
#[derive(Debug, Clone, Copy, PartialEq, Eq, Structural)]
pub enum LoadStep {
    /// Nothing.
    Idle,
    /// Something is still on its way.
    Wait,
    /// All have come or failed: build the arrays, once.
    Build,
}

/// Those of the first `n` materials that are there.
pub open spec fn arrived(pending: Seq<usize>, states: Seq<(LoadState, LoadState)>, n: nat) -> Seq<usize>
    decreases n,
{
    if n == 0 {
        Seq::empty()
    } else {
        let rest = arrived(pending, states, (n - 1) as nat);
        if both_loaded(states[pending[n - 1] as int]) {
            rest.push(pending[n - 1])
        } else {
            rest
        }
    }
}

/// Those of the first `n` materials that are on their way.
pub open spec fn on_the_way(pending: Seq<usize>, states: Seq<(LoadState, LoadState)>, n: nat) -> Seq<
    usize,
>
    decreases n,
{
    if n == 0 {
        Seq::empty()
    } else {
        let rest = on_the_way(pending, states, (n - 1) as nat);
        let s = states[pending[n - 1] as int];
        if both_loaded(s) || one_failed(s) {
            rest
        } else {
            rest.push(pending[n - 1])
        }
    }
}

impl PbrLoad {
    pub fn new() -> (r: Self)
        ensures
            !r.started,
            !r.done,
            r.pending.len() == 0,
            r.ready.len() == 0,
    {
        PbrLoad { started: false, pending: Vec::new(), ready: Vec::new(), done: false }
    }

    /// Starts loading `n` materials, once.
    pub fn start(&mut self, n: usize)
        requires
            !old(self).started ==> old(self).pending.len() == 0,
        ensures
            final(self).started,
            old(self).started ==> *final(self) == *old(self),
            !old(self).started ==> final(self).pending@ == Seq::new(n as nat, |i: int| i as usize)
                && final(self).ready == old(self).ready && final(self).done == old(self).done,
    {
        if self.started {
            return ;
        }
        self.started = true;
        let mut i: usize = 0;
        while i < n
            invariant
                i <= n,
                self.started,
                self.ready == old(self).ready,
                self.done == old(self).done,
                self.pending@ == Seq::new(i as nat, |k: int| k as usize),
            decreases n - i,
        {
            self.pending.push(i);
            i += 1;
            assert(self.pending@ =~= Seq::new(i as nat, |k: int| k as usize));
        }
        assert(self.pending@ =~= Seq::new(n as nat, |k: int| k as usize));
    }

    /// One frame. What has come is kept, what failed is dropped; once nothing is on its way any
    /// more, the arrays are built.
    pub fn finish(&mut self, states: &Vec<(LoadState, LoadState)>) -> (r: LoadStep)
        requires
            forall|i: int|
                0 <= i < old(self).pending.len() ==> (#[trigger] old(self).pending@[i])
                    < states.len(),
        ensures
            final(self).started == old(self).started,
            !old(self).started || old(self).done ==> r == LoadStep::Idle && *final(self) == *old(self),
            old(self).started && !old(self).done ==> {
                let p = old(self).pending@;
                &&& final(self).ready@ == old(self).ready@ + arrived(p, states@, p.len())
                &&& final(self).pending@ == on_the_way(p, states@, p.len())
                &&& final(self).done == (final(self).pending@.len() == 0)
                &&& r == (if final(self).done {
                    LoadStep::Build
                } else {
                    LoadStep::Wait
                })
            },
    {
        if !self.started || self.done {
            return LoadStep::Idle;
        }
        let ghost p = self.pending@;
        let ghost r0 = self.ready@;
        let mut still: Vec<usize> = Vec::new();
        let mut i: usize = 0;
        assert(self.ready@ =~= r0 + arrived(p, states@, 0));
        while i < self.pending.len()
            invariant
                i <= self.pending.len(),
                p == self.pending@,
                self.pending == old(self).pending,
                self.started,
                !self.done,
                forall|j: int| 0 <= j < p.len() ==> (#[trigger] p[j]) < states.len(),
                self.ready@ == r0 + arrived(p, states@, i as nat),
                still@ == on_the_way(p, states@, i as nat),
            decreases self.pending.len() - i,
        {
            let m: usize = self.pending[i];
            let s: (LoadState, LoadState) = states[m];
            if s.0 == LoadState::Loaded && s.1 == LoadState::Loaded {
                self.ready.push(m);
            } else if !(s.0 == LoadState::Failed || s.1 == LoadState::Failed) {
                still.push(m);
            }
            i += 1;
            assert(self.ready@ =~= r0 + arrived(p, states@, i as nat));
        }
        self.pending = still;
        if self.pending.len() > 0 {
            return LoadStep::Wait;
        }
        self.done = true;
        LoadStep::Build
    }
}

/// A picture as it was loaded.
#[derive(Debug)]
pub struct Picture {
    pub width: u32,
    pub height: u32,
    pub layers: u32,
    /// Its pixels are four bytes: red, green, blue and alpha.
    pub rgba8: bool,
    pub data: Option<Vec<u8>>,
}

/// A material's two pictures.
#[derive(Debug)]
pub struct Material {
    pub id: String,
    pub albedo: Option<Picture>,
    /// Green is roughness, blue metalness.
    pub roughmetal: Option<Picture>,
}

impl Named for Material {
    open spec fn name(&self) -> Seq<char> {
        self.id@
    }

    fn name_str(&self) -> (r: &str) {
        self.id.as_str()
    }
}

impl Picture {
    /// The pixels can be read: one layer of four bytes per pixel.
    pub open spec fn readable(&self) -> bool {
        &&& self.layers == 1
        &&& self.data is Some
        &&& self.rgba8
        &&& self.data->0.len() == self.width * self.height * 4
    }

    /// The number of pixels fits 32 bits.
    pub open spec fn fits(&self) -> bool {
        self.width * self.height <= u32::MAX && self.width * self.height * 4 <= usize::MAX
    }

    /// Whether the pixels can be read.
    pub fn rgba8_pixels(&self) -> (r: Option<&Vec<u8>>)
        requires
            self.fits(),
        ensures
            match r {
                Some(d) => self.readable() && *d == self.data->0,
                None => !self.readable(),
            },
    {
        if self.layers != 1 || !self.rgba8 {
            return None;
        }
        let px: usize = (self.width * self.height) as usize;
        match &self.data {
            Some(d) => if d.len() == px * 4 {
                Some(d)
            } else {
                None
            },
            None => None,
        }
    }
}

/// Pixels that a pixel of a layer averages, along an edge.
pub open spec fn factor(src: u32, dst: u32) -> Option<u32> {
    if src >= dst && src % dst == 0 {
        Some((src as int / dst as int) as u32)
    } else {
        None
    }
}

impl Material {
    /// The material can be used: both pictures are there with one size that layers of `dst` pixels
    /// divide, and can be read.
    pub open spec fn usable(&self, dst: u32) -> bool {
        &&& self.albedo is Some
        &&& self.roughmetal is Some
        &&& self.albedo->0.width == self.roughmetal->0.width
        &&& self.albedo->0.height == self.roughmetal->0.height
        &&& factor(self.albedo->0.width, dst) is Some
        &&& factor(self.albedo->0.height, dst) is Some
        &&& self.albedo->0.readable()
        &&& self.roughmetal->0.readable()
    }

    pub open spec fn fits(&self, dst: u32) -> bool {
        &&& self.albedo is Some ==> self.albedo->0.fits()
        &&& self.roughmetal is Some ==> self.roughmetal->0.fits()
        &&& self.usable(dst) ==> (self.albedo->0.width as int / dst as int) * (
        self.albedo->0.height as int / dst as int) * 256 <= u32::MAX
    }

    /// Colour and roughness, with the chain of smaller pictures.
    pub open spec fn rgba_bytes(&self, dst: u32) -> Seq<u8> {
        let w = self.albedo->0.width;
        chain(
            packed_rgba(
                self.albedo->0.data->0@,
                self.roughmetal->0.data->0@,
                w as int,
                factor(w, dst)->0 as nat,
                factor(self.albedo->0.height, dst)->0 as nat,
                dst as int,
            ),
            dst as nat,
            4,
        )
    }

    /// Metalness, with the chain of smaller pictures.
    pub open spec fn metal_bytes(&self, dst: u32) -> Seq<u8> {
        let w = self.albedo->0.width;
        chain(
            packed_metal(
                self.roughmetal->0.data->0@,
                w as int,
                factor(w, dst)->0 as nat,
                factor(self.albedo->0.height, dst)->0 as nat,
                dst as int,
            ),
            dst as nat,
            1,
        )
    }

    /// The layers of the material, if it can be used.
    fn pack(&self, dst: u32) -> (r: Option<(Vec<u8>, Vec<u8>, u32)>)
        requires
            dst >= 1,
            dst * dst * 4 <= usize::MAX,
            self.fits(dst),
        ensures
            match r {
                Some((rgba, metal, levels)) => self.usable(dst) && rgba@ == self.rgba_bytes(dst)
                    && metal@ == self.metal_bytes(dst) && levels == chain_levels(dst as nat),
                None => !self.usable(dst),
            },
    {
        match (&self.albedo, &self.roughmetal) {
            (Some(a), Some(m)) => {
                if a.width != m.width || a.height != m.height {
                    return None;
                }
                match (box_factor(a.width, dst), box_factor(a.height, dst)) {
                    (Some(fx), Some(fy)) => {
                        match (a.rgba8_pixels(), m.rgba8_pixels()) {
                            (Some(ab), Some(rb)) => {
                                let src: UVec2 = UVec2 { x: a.width, y: a.height };
                                let (rgba, metal) = pack_layer(ab, rb, src, fx, fy, dst);
                                proof {
                                    lemma_packed(
                                        rgba@,
                                        metal@,
                                        ab@,
                                        rb@,
                                        src.x as int,
                                        fx as nat,
                                        fy as nat,
                                        dst as int,
                                    );
                                }
                                let (rgba_all, levels) = build_mip_chain(rgba, dst, 4);
                                let (metal_all, _) = build_mip_chain(metal, dst, 1);
                                Some((rgba_all, metal_all, levels))
                            },
                            _ => None,
                        }
                    },
                    _ => None,
                }
            },
            _ => None,
        }
    }
}

/// The arrays: the layers of all materials that can be used, in the order of their names.
#[derive(Debug)]
pub struct PbrArrays {
    pub ids: Vec<String>,
    pub albedo_rough: Vec<u8>,
    pub metal: Vec<u8>,
    pub mip_levels: u32,
}

/// Names of the first `n` materials that can be used.
pub open spec fn used_ids(ms: Seq<Material>, dst: u32, n: nat) -> Seq<Seq<char>>
    decreases n,
{
    if n == 0 {
        Seq::empty()
    } else if ms[n - 1].usable(dst) {
        used_ids(ms, dst, (n - 1) as nat).push(ms[n - 1].id@)
    } else {
        used_ids(ms, dst, (n - 1) as nat)
    }
}

/// Colour and roughness of the first `n` materials that can be used, one after the other.
pub open spec fn used_rgba(ms: Seq<Material>, dst: u32, n: nat) -> Seq<u8>
    decreases n,
{
    if n == 0 {
        Seq::empty()
    } else if ms[n - 1].usable(dst) {
        used_rgba(ms, dst, (n - 1) as nat) + ms[n - 1].rgba_bytes(dst)
    } else {
        used_rgba(ms, dst, (n - 1) as nat)
    }
}

/// Metalness of the first `n` materials that can be used, one after the other.
pub open spec fn used_metal(ms: Seq<Material>, dst: u32, n: nat) -> Seq<u8>
    decreases n,
{
    if n == 0 {
        Seq::empty()
    } else if ms[n - 1].usable(dst) {
        used_metal(ms, dst, (n - 1) as nat) + ms[n - 1].metal_bytes(dst)
    } else {
        used_metal(ms, dst, (n - 1) as nat)
    }
}

/// Views of names.
pub open spec fn views(ids: Seq<String>) -> Seq<Seq<char>> {
    ids.map_values(|s: String| s@)
}

/// `ms` are the materials in the order of their names.
pub open spec fn in_order(ms: Seq<Material>, given: Seq<Material>) -> bool {
    by_name(ms) && ms.to_multiset() == given.to_multiset()
}

/// `r` are the arrays of the materials `ms`.
pub open spec fn arrays_of(r: Option<PbrArrays>, ms: Seq<Material>, dst: u32) -> bool {
    match r {
        None => used_ids(ms, dst, ms.len()).len() == 0,
        Some(a) => {
            &&& a.ids.len() > 0
            &&& views(a.ids@) == used_ids(ms, dst, ms.len())
            &&& a.albedo_rough@ == used_rgba(ms, dst, ms.len())
            &&& a.metal@ == used_metal(ms, dst, ms.len())
            &&& a.mip_levels == chain_levels(dst as nat)
        },
    }
}

/// Builds the arrays; `None` when no material can be used.
pub fn build_texture_arrays(ready: Vec<Material>, dst: u32) -> (r: Option<PbrArrays>)
    requires
        dst >= 1,
        dst * dst * 4 <= usize::MAX,
        forall|i: int| 0 <= i < ready.len() ==> (#[trigger] ready@[i]).fits(dst),
    ensures
        exists|ms: Seq<Material>| #[trigger] in_order(ms, ready@) && arrays_of(r, ms, dst),
{
    let ghost given = ready@;
    let ms: Vec<Material> = sorted_by_name(ready);
    let mut ids: Vec<String> = Vec::new();
    let mut albedo_rough: Vec<u8> = Vec::new();
    let mut metal: Vec<u8> = Vec::new();
    let mut mip_levels: u32 = 0;
    let mut i: usize = 0;
    proof {
        crate::sort::lemma_same_items(given, ms@);
        assert forall|j: int| 0 <= j < ms@.len() implies (#[trigger] ms@[j]).fits(dst) by {
            assert(ms@.contains(ms@[j]));
            assert(given.contains(ms@[j]));
            let k = choose|k: int| 0 <= k < given.len() && given[k] == ms@[j];
            assert(given[k].fits(dst));
        }
        assert(views(ids@) =~= used_ids(ms@, dst, 0));
    }
    while i < ms.len()
        invariant
            i <= ms.len(),
            dst >= 1,
            dst * dst * 4 <= usize::MAX,
            forall|j: int| 0 <= j < ms@.len() ==> (#[trigger] ms@[j]).fits(dst),
            views(ids@) == used_ids(ms@, dst, i as nat),
            albedo_rough@ == used_rgba(ms@, dst, i as nat),
            metal@ == used_metal(ms@, dst, i as nat),
            ids.len() > 0 ==> mip_levels == chain_levels(dst as nat),
        decreases ms.len() - i,
    {
        let m: &Material = &ms[i];
        assert(ms@[i as int].fits(dst));
        let ghost ids0 = ids@;
        if let Some((rgba, mt, levels)) = m.pack(dst) {
            albedo_rough.extend_from_slice(rgba.as_slice());
            metal.extend_from_slice(mt.as_slice());
            mip_levels = levels;
            ids.push(m.id.clone());
            proof {
                assert(views(ids@) =~= views(ids0).push(m.id@));
                assert(albedo_rough@ =~= used_rgba(ms@, dst, (i + 1) as nat));
                assert(metal@ =~= used_metal(ms@, dst, (i + 1) as nat));
            }
        }
        i += 1;
    }
    proof {
        assert(in_order(ms@, given));
        assert(views(ids@).len() == ids@.len());
    }
    if ids.len() == 0 {
        return None;
    }
    Some(PbrArrays { ids, albedo_rough, metal, mip_levels })
}

/// The names of material directories in order, as many as there are layers for.
pub fn slot_names(ids: Vec<String>, slots: u32) -> (r: Vec<String>)
    ensures
        exists|all: Seq<String>|
            #![trigger by_name(all)]
            by_name(all) && all.to_multiset() == ids@.to_multiset() && r@ == (if all.len()
                <= slots {
                all
            } else {
                all.take(slots as int)
            }),
{
    let mut r: Vec<String> = sorted_by_name(ids);
    let ghost all = r@;
    if r.len() > slots as usize {
        r.truncate(slots as usize);
        proof {
            assert(r@ =~= all.take(slots as int));
        }
    }
    r
}

/// The finished set: what there is in the arrays.
#[derive(Debug)]
pub struct PbrTextureSet {
    /// Names by layer.
    pub ids: Vec<String>,
    /// Size of a layer.
    pub size: UVec2,
    pub layers: u32,
    /// Pictures of each chain.
    pub mip_levels: u32,
}

impl PbrTextureSet {
    /// Names by layer.
    pub fn ids(&self) -> (r: &Vec<String>)
        ensures
            *r == self.ids,
    {
        &self.ids
    }

    /// Size of a layer.
    pub fn size(&self) -> (r: UVec2)
        ensures
            r == self.size,
    {
        self.size
    }

    /// Number of layers.
    pub fn layers(&self) -> (r: u32)
        ensures
            r == self.layers,
    {
        self.layers
    }

    /// Pictures of each chain.
    pub fn mip_levels(&self) -> (r: u32)
        ensures
            r == self.mip_levels,
    {
        self.mip_levels
    }

    /// The layer of a material; `None` when the set has none.
    pub fn slot_of(&self, id: &str) -> (r: Option<u32>)
        requires
            self.ids.len() <= u32::MAX,
        ensures
            match r {
                Some(i) => i < self.ids.len() && self.ids@[i as int]@ == id@ && forall|j: int|
                    0 <= j < i ==> (#[trigger] self.ids@[j])@ != id@,
                None => forall|j: int| 0 <= j < self.ids.len() ==> (#[trigger] self.ids@[j])@ != id@,
            },
    {
        let mut i: usize = 0;
        while i < self.ids.len()
            invariant
                i <= self.ids.len() <= u32::MAX,
                forall|j: int| 0 <= j < i ==> (#[trigger] self.ids@[j])@ != id@,
            decreases self.ids.len() - i,
        {
            if same_name(self.ids[i].as_str(), id) {
                return Some(i as u32);
            }
            i += 1;
        }
        None
    }

    /// Bytes of the two arrays, chains and all.
    pub fn bytes(&self) -> (r: (u64, u64))
        requires
            chain_pixels(self.size.x as nat) * self.layers * 4 <= u64::MAX,
        ensures
            r.0 == chain_pixels(self.size.x as nat) * self.layers * 4,
            r.1 == chain_pixels(self.size.x as nat) * self.layers,
    {
        if self.layers == 0 {
            return (0, 0);
        }
        proof {
            let (a, l) = (chain_pixels(self.size.x as nat) as int, self.layers as int);
            assert(a <= a * l && a * l <= a * l * 4) by (nonlinear_arith)
                requires
                    a >= 0,
                    l >= 1,
            ;
        }
        let px: u64 = mip_px_total(self.size.x) * self.layers as u64;
        (px * 4, px)
    }
}

/// Entry `i` of the table of materials: the layers of its pictures if it has any, and the scalars of a
/// grey dielectric; the demo metal is made of metal.
pub open spec fn table_entry(i: int, layers: int, metal: Option<u32>) -> MaterialAsset {
    let slot = if i < layers {
        i as u32
    } else {
        MATERIAL_SLOT_NONE
    };
    MaterialAsset {
        albedo_slot: slot,
        roughmetal_slot: slot,
        emissive_slot: MATERIAL_SLOT_NONE,
        transmission_slot: MATERIAL_SLOT_NONE,
        height_slot: MATERIAL_SLOT_NONE,
        albedo_rough: 0x8080_8080,
        emissive_metal: if metal is Some && metal->0 == i {
            0xFF_FF00
        } else {
            0xFF_0000
        },
        transmission_ior: 9830400,
    }
}

/// The table of materials, `slots` entries long.
pub fn build_material_asset_table(set: &PbrTextureSet, slots: u32) -> (r: Vec<MaterialAsset>)
    requires
        set.ids.len() <= u32::MAX,
    ensures
        r.len() == slots,
        exists|metal: Option<u32>|
            #![trigger is_demo_slot(set.ids@, metal)]
            is_demo_slot(set.ids@, metal) && forall|i: int|
                0 <= i < slots ==> #[trigger] r@[i] == table_entry(i, set.layers as int, metal),
{
    let metal: Option<u32> = set.slot_of(metal_demo_id());
    let mut r: Vec<MaterialAsset> = Vec::with_capacity(slots as usize);
    let mut i: u32 = 0;
    while i < slots
        invariant
            i <= slots,
            r.len() == i,
            forall|j: int| 0 <= j < i ==> #[trigger] r@[j] == table_entry(j, set.layers as int, metal),
        decreases slots - i,
    {
        let slot: u32 = if i < set.layers { i } else { MATERIAL_SLOT_NONE };
        let is_metal: bool = match metal {
            Some(m) => m == i,
            None => false,
        };
        r.push(
            MaterialAsset {
                albedo_slot: slot,
                roughmetal_slot: slot,
                emissive_slot: MATERIAL_SLOT_NONE,
                transmission_slot: MATERIAL_SLOT_NONE,
                height_slot: MATERIAL_SLOT_NONE,
                albedo_rough: 0x8080_8080,
                emissive_metal: if is_metal { 0xFF_FF00 } else { 0xFF_0000 },
                transmission_ior: 9830400,
            },
        );
        i += 1;
    }
    assert(is_demo_slot(set.ids@, metal));
    r
}

/// `slot` is the layer of the demo metal.
pub open spec fn is_demo_slot(ids: Seq<String>, slot: Option<u32>) -> bool {
    match slot {
        Some(i) => i < ids.len() && ids[i as int]@ == "metal_plate"@ && forall|j: int|
            0 <= j < i ==> (#[trigger] ids[j])@ != "metal_plate"@,
        None => forall|j: int| 0 <= j < ids.len() ==> (#[trigger] ids[j])@ != "metal_plate"@,
    }
}

/// A picture can be reduced exactly when its edge is a multiple of the wanted one, and the factor is
/// what takes the one to the other.
pub proof fn lemma_factor(src: u32, dst: u32, f: u32)
    requires
        dst > 0,
        src > 0,
    ensures
        factor(src, dst) == Some(f) <==> f * dst == src,
{
    let (s, d) = (src as int, dst as int);
    if f * dst == src {
        assert(s % d == 0 && s / d == f && s >= d) by (nonlinear_arith)
            requires
                f * dst == s,
                d == dst,
                s > 0,
                d > 0,
        ;
    }
    if factor(src, dst) == Some(f) {
        vstd::arithmetic::div_mod::lemma_fundamental_div_mod(s, d);
        assert(d * (s / d) == (s / d) * d) by (nonlinear_arith);
    }
}

/// Each material that was on its way has come, where both its pictures have, or failed, where one has,
/// or else is still on its way.
pub proof fn lemma_pending_is_sorted_out(
    pending: Seq<usize>,
    states: Seq<(LoadState, LoadState)>,
    n: nat,
    x: usize,
)
    requires
        n <= pending.len(),
    ensures
        arrived(pending, states, n).contains(x) <==> pending.take(n as int).contains(x) && states[
            x as int].0 is Loaded && states[x as int].1 is Loaded,
        on_the_way(pending, states, n).contains(x) <==> pending.take(n as int).contains(x) && !(states[
            x as int].0 is Loaded && states[x as int].1 is Loaded) && !(states[x as int].0 is Failed)
            && !(states[x as int].1 is Failed),
    decreases n,
{
    if n > 0 {
        let m = (n - 1) as nat;
        lemma_pending_is_sorted_out(pending, states, m, x);
        let last = pending[n - 1];
        let (t, t0) = (pending.take(n as int), pending.take(m as int));
        assert(t =~= t0.push(last));
        lemma_pushed(t0, last, x);
        lemma_pushed(arrived(pending, states, m), last, x);
        lemma_pushed(on_the_way(pending, states, m), last, x);
    }
}

proof fn lemma_pushed(s: Seq<usize>, last: usize, x: usize)
    ensures
        s.push(last).contains(x) <==> s.contains(x) || x == last,
{
    let t = s.push(last);
    if s.contains(x) {
        let i = choose|i: int| 0 <= i < s.len() && s[i] == x;
        assert(t[i] == x);
    }
    if x == last {
        assert(t[s.len() as int] == x);
    }
    if t.contains(x) {
        let i = choose|i: int| 0 <= i < t.len() && t[i] == x;
        if i < s.len() {
            assert(s[i] == x);
        }
    }
}

/// Usable materials among the first `n`.
pub open spec fn usable_before(ms: Seq<Material>, dst: u32, n: nat) -> nat
    decreases n,
{
    if n == 0 {
        0
    } else {
        usable_before(ms, dst, (n - 1) as nat) + (if ms[n - 1].usable(dst) {
            1nat
        } else {
            0nat
        })
    }
}

/// Every usable material has a layer: as many come before it as usable materials do, its name stands
/// there, and the layer's bytes stand as far into the arrays as that many layers reach.
pub proof fn lemma_layers_stand(ms: Seq<Material>, dst: u32, n: nat, i: int, b: int)
    requires
        dst >= 1,
        0 <= i < n <= ms.len(),
        ms[i].usable(dst),
        0 <= b,
    ensures
        ({
            let k = usable_before(ms, dst, i as nat) as int;
            let size = chain_pixels(dst as nat) as int;
            &&& k < used_ids(ms, dst, n).len()
            &&& used_ids(ms, dst, n)[k] == ms[i].id@
            &&& b < 4 * size ==> used_rgba(ms, dst, n)[k * (4 * size) + b] == ms[i].rgba_bytes(dst)[b]
            &&& b < size ==> used_metal(ms, dst, n)[k * size + b] == ms[i].metal_bytes(dst)[b]
        }),
    decreases n,
{
    let m = (n - 1) as nat;
    let size = chain_pixels(dst as nat) as int;
    let k = usable_before(ms, dst, i as nat) as int;
    lemma_layer_lengths(ms, dst, i as nat);
    lemma_layer_lengths(ms, dst, m);
    lemma_material_bytes(ms[i], dst);
    if i < m {
        lemma_layers_stand(ms, dst, m, i, b);
        lemma_usable_grows(ms, dst, i as nat, m);
        let u = usable_before(ms, dst, m) as int;
        assert(k + 1 <= u);
        assert(k * (4 * size) + 4 * size <= u * (4 * size) && k * size + size <= u * size && 0 <= k
            * size && 0 <= k * (4 * size)) by (nonlinear_arith)
            requires
                k + 1 <= u,
                0 <= size,
                0 <= k,
        ;
    }
}

proof fn lemma_usable_grows(ms: Seq<Material>, dst: u32, i: nat, n: nat)
    requires
        i < n <= ms.len(),
        ms[i as int].usable(dst),
    ensures
        usable_before(ms, dst, i) + 1 <= usable_before(ms, dst, n),
    decreases n,
{
    if i < n - 1 {
        lemma_usable_grows(ms, dst, i, (n - 1) as nat);
    }
}

proof fn lemma_material_bytes(m: Material, dst: u32)
    requires
        dst >= 1,
    ensures
        m.rgba_bytes(dst).len() == 4 * chain_pixels(dst as nat),
        m.metal_bytes(dst).len() == chain_pixels(dst as nat),
{
    let w = m.albedo->0.width;
    let (fx, fy) = (factor(w, dst)->0 as nat, factor(m.albedo->0.height, dst)->0 as nat);
    let rgba = packed_rgba(
        m.albedo->0.data->0@,
        m.roughmetal->0.data->0@,
        w as int,
        fx,
        fy,
        dst as int,
    );
    let metal = packed_metal(m.roughmetal->0.data->0@, w as int, fx, fy, dst as int);
    assert(dst * dst >= 0) by (nonlinear_arith);
    lemma_chain_len(rgba, dst as nat, 4);
    lemma_chain_len(metal, dst as nat, 1);
}

proof fn lemma_layer_lengths(ms: Seq<Material>, dst: u32, n: nat)
    requires
        dst >= 1,
        n <= ms.len(),
    ensures
        used_ids(ms, dst, n).len() == usable_before(ms, dst, n),
        used_rgba(ms, dst, n).len() == usable_before(ms, dst, n) * (4 * chain_pixels(dst as nat)),
        used_metal(ms, dst, n).len() == usable_before(ms, dst, n) * chain_pixels(dst as nat),
    decreases n,
{
    let (u, s) = (usable_before(ms, dst, n) as int, chain_pixels(dst as nat) as int);
    if n > 0 {
        lemma_layer_lengths(ms, dst, (n - 1) as nat);
        lemma_material_bytes(ms[n - 1], dst);
        assert((u - 1) * (4 * s) + 4 * s == u * (4 * s) && (u - 1) * s + s == u * s)
            by (nonlinear_arith);
    } else {
        assert(u * (4 * s) == 0 && u * s == 0) by (nonlinear_arith)
            requires
                u == 0,
        ;
    }
}

/// An entry of the material table: where there is a layer, it gives both textures of the entry, and the
/// other textures are never there. Without a texture a material is a medium grey and medium rough, does
/// not glow, and refracts at 1.5; the demonstration material alone is a metal. None is displaced.
pub proof fn lemma_table_entry(i: int, layers: int, metal: Option<u32>)
    requires
        0 <= i < u32::MAX,
    ensures
        ({
            let e = table_entry(i, layers, metal);
            let (a, m) = (e.albedo_rough as int, e.emissive_metal as int);
            &&& i < layers ==> e.albedo_slot == i && e.roughmetal_slot == i
            &&& i >= layers ==> e.albedo_slot == MATERIAL_SLOT_NONE && e.roughmetal_slot
                == MATERIAL_SLOT_NONE
            &&& e.emissive_slot == MATERIAL_SLOT_NONE
            &&& e.transmission_slot == MATERIAL_SLOT_NONE
            &&& e.height_slot == MATERIAL_SLOT_NONE
            &&& a % 256 == 128 && a / 256 % 256 == 128 && a / 65536 % 256 == 128 && a / 16777216 == 128
            &&& m % 256 == 0
            &&& m / 256 % 256 == 255 <==> metal == Some(i as u32)
            &&& m / 256 % 256 == 0 || m / 256 % 256 == 255
            &&& m / 65536 % 256 == 255
            &&& e.amplitude() == 0
            &&& e.transmission_ior as int % 65536 == 0
            &&& e.transmission_ior as int / 65536 == 150
        }),
{
}

/// A usable material has two pictures of one size, on both axes, whose edges are multiples of a layer's
/// edge, each a single layer with four bytes for every pixel; and every such material is usable.
pub proof fn lemma_usable(m: Material, dst: u32)
    requires
        dst > 0,
        m.albedo is Some,
        m.roughmetal is Some,
        m.albedo->0.width > 0 && m.albedo->0.height > 0,
    ensures
        ({
            let (a, r) = (m.albedo->0, m.roughmetal->0);
            m.usable(dst) <==> {
                &&& a.width == r.width && a.height == r.height
                &&& a.width as int % dst as int == 0 && a.height as int % dst as int == 0
                &&& a.layers == 1 && r.layers == 1
                &&& a.rgba8 && r.rgba8
                &&& a.data is Some && a.data->0@.len() == 4 * (a.width * a.height)
                &&& r.data is Some && r.data->0@.len() == 4 * (r.width * r.height)
            }
        }),
{
    let (a, d) = (m.albedo->0, dst as int);
    let (w, h) = (a.width as int, a.height as int);
    assert(w % d == 0 ==> w >= d) by (nonlinear_arith)
        requires
            w > 0,
            d > 0,
    ;
    assert(h % d == 0 ==> h >= d) by (nonlinear_arith)
        requires
            h > 0,
            d > 0,
    ;
}

/// The arrays hold every usable material, in the order of their names: as many layers come before one as
/// usable materials do, its name stands there, and its bytes as far into the arrays as that many layers
/// reach.
pub proof fn lemma_arrays_hold_materials(
    r: Option<PbrArrays>,
    ms: Seq<Material>,
    given: Seq<Material>,
    dst: u32,
    i: int,
    b: int,
)
    requires
        dst >= 1,
        in_order(ms, given),
        arrays_of(r, ms, dst),
        0 <= i < ms.len(),
        ms[i].usable(dst),
        0 <= b,
    ensures
        given.contains(ms[i]),
        r is Some,
        ({
            let a = r->0;
            let k = usable_before(ms, dst, i as nat) as int;
            let size = chain_pixels(dst as nat) as int;
            &&& k < a.ids.len()
            &&& a.ids@[k]@ == ms[i].id@
            &&& b < 4 * size ==> a.albedo_rough@[k * (4 * size) + b] == ms[i].rgba_bytes(dst)[b]
            &&& b < size ==> a.metal@[k * size + b] == ms[i].metal_bytes(dst)[b]
            &&& a.mip_levels == chain_levels(dst as nat)
        }),
        forall|j: int| i < j < ms.len() ==> !name_less((#[trigger] ms[j]).id@, ms[i].id@),
{
    lemma_layers_stand(ms, dst, ms.len(), i, b);
    crate::sort::lemma_same_items(ms, given);
    assert(ms.contains(ms[i]));
    let k = usable_before(ms, dst, i as nat) as int;
    assert(views(r->0.ids@)[k] == r->0.ids@[k]@);
    assert forall|j: int| i < j < ms.len() implies !name_less((#[trigger] ms[j]).id@, ms[i].id@) by {
        assert(!name_less(ms[j].name(), ms[i].name()));
    }
}

} // verus!
