//! Seen faces and the light that is kept for them, by voxel and object.

use super::coord_map::CoordMap;
use crate::math::{ChunkCoord, IVec3};
use vstd::prelude::*;

verus! {

/// Values by voxel and object number.
pub struct FaceMap<V> {
    objects: Vec<u32>,
    maps: Vec<CoordMap<V>>,
}

impl<V: Copy> FaceMap<V> {
    pub closed spec fn wf(&self) -> bool {
        &&& self.objects.len() == self.maps.len()
        &&& forall|i: int| 0 <= i < self.maps.len() ==> (#[trigger] self.maps@[i]).wf()
        &&& forall|i: int, j: int|
            0 <= i < j < self.objects.len() ==> #[trigger] self.objects@[i]
                != #[trigger] self.objects@[j]
    }

    /// The value of a voxel of an object.
    pub closed spec fn at(&self, voxel: IVec3, obj_key: u32) -> Option<V> {
        if exists|i: int| 0 <= i < self.objects.len() && #[trigger] self.objects@[i] == obj_key {
            let i = choose|i: int|
                0 <= i < self.objects.len() && #[trigger] self.objects@[i] == obj_key;
            if self.maps@[i].has(ChunkCoord(voxel)) {
                Some(self.maps@[i].at(ChunkCoord(voxel)))
            } else {
                None
            }
        } else {
            None
        }
    }

    pub fn new() -> (r: Self)
        ensures
            r.wf(),
            forall|voxel: IVec3, obj_key: u32| #[trigger] r.at(voxel, obj_key) is None,
    {
        FaceMap { objects: Vec::new(), maps: Vec::new() }
    }

    fn slot(&self, obj_key: u32) -> (r: Option<usize>)
        requires
            self.wf(),
        ensures
            match r {
                Some(i) => i < self.objects.len() && self.objects@[i as int] == obj_key,
                None => forall|i: int|
                    0 <= i < self.objects.len() ==> #[trigger] self.objects@[i] != obj_key,
            },
    {
        let mut i: usize = 0;
        while i < self.objects.len()
            invariant
                i <= self.objects.len(),
                forall|j: int| 0 <= j < i ==> #[trigger] self.objects@[j] != obj_key,
            decreases self.objects.len() - i,
        {
            if self.objects[i] == obj_key {
                return Some(i);
            }
            i += 1;
        }
        None
    }

    proof fn lemma_at(&self, i: int, voxel: IVec3)
        requires
            self.wf(),
            0 <= i < self.objects.len(),
        ensures
            self.at(voxel, self.objects@[i]) == (if self.maps@[i].has(ChunkCoord(voxel)) {
                Some(self.maps@[i].at(ChunkCoord(voxel)))
            } else {
                None
            }),
    {
        let k = self.objects@[i];
        let j = choose|j: int| 0 <= j < self.objects.len() && #[trigger] self.objects@[j] == k;
        assert(self.objects@[j] == k);
        if i < j {
            assert(self.objects@[i] != self.objects@[j]);
        } else if j < i {
            assert(self.objects@[j] != self.objects@[i]);
        }
    }

    /// The value of a voxel of an object.
    pub fn get(&self, voxel: IVec3, obj_key: u32) -> (r: Option<V>)
        requires
            self.wf(),
        ensures
            r == self.at(voxel, obj_key),
    {
        match self.slot(obj_key) {
            Some(i) => {
                proof {
                    self.lemma_at(i as int, voxel);
                    assert(self.maps@[i as int].wf());
                }
                match self.maps[i].get(ChunkCoord(voxel)) {
                    Some(v) => Some(*v),
                    None => None,
                }
            },
            None => None,
        }
    }

    /// Sets the value of a voxel of an object.
    pub fn put(&mut self, voxel: IVec3, obj_key: u32, value: V)
        requires
            old(self).wf(),
        ensures
            final(self).wf(),
            final(self).at(voxel, obj_key) == Some(value),
            forall|v: IVec3, k: u32|
                !(v == voxel && k == obj_key) ==> #[trigger] final(self).at(v, k) == old(self).at(
                    v,
                    k,
                ),
    {
        let ghost o = *self;
        let i: usize = match self.slot(obj_key) {
            Some(i) => i,
            None => {
                self.objects.push(obj_key);
                self.maps.push(CoordMap::new());
                self.objects.len() - 1
            },
        };
        let ghost s1 = *self;
        proof {
            assert forall|v: IVec3, k: u32| #[trigger] s1.at(v, k) == o.at(v, k) by {
                lemma_pushed(o, s1, obj_key, v, k);
            }
            assert(self.maps@[i as int].wf());
            s1.lemma_at(i as int, voxel);
        }
        let c: ChunkCoord = ChunkCoord(voxel);
        let found: Option<usize> = self.maps[i].find(c);
        let ghost m0 = self.maps@[i as int];
        match found {
            Some(j) => {
                let place: &mut V = self.maps[i].value_mut(j);
                *place = value;
                proof {
                    self.maps@[i as int].lemma_updated(&m0, j as int, value);
                }
            },
            None => {
                self.maps[i].insert(c, value);
            },
        }
        proof {
            assert(self.wf()) by {
                assert forall|k: int| 0 <= k < self.maps.len() implies (#[trigger] self.maps@[k]).wf() by {
                    if k != i {
                        assert(s1.maps@[k].wf());
                    }
                }
            }
            self.lemma_at(i as int, voxel);
            assert forall|v: IVec3, k: u32| !(v == voxel && k == obj_key) implies
                #[trigger] self.at(v, k) == o.at(v, k) by {
                assert(s1.at(v, k) == o.at(v, k));
                if k == obj_key {
                    self.lemma_at(i as int, v);
                    s1.lemma_at(i as int, v);
                    assert(self.maps@[i as int].has(ChunkCoord(v)) <==> m0.has(ChunkCoord(v)));
                } else if exists|j: int|
                    0 <= j < self.objects.len() && #[trigger] self.objects@[j] == k {
                    let j = choose|j: int|
                        0 <= j < self.objects.len() && #[trigger] self.objects@[j] == k;
                    self.lemma_at(j, v);
                    s1.lemma_at(j, v);
                }
            }
        }
    }

    /// The key stands among the first `n` objects, or before entry `m` of the next.
    spec fn passed(&self, n: int, m: int, voxel: IVec3, obj_key: u32) -> bool {
        exists|i: int, e: int|
            0 <= i < self.maps.len() && 0 <= e < self.maps@[i].items().len() && (i < n || (i == n && e
                < m)) && #[trigger] self.maps@[i].items()[e].0 == ChunkCoord(voxel)
                && self.objects@[i] == obj_key
    }

    proof fn lemma_at_entry(&self, i: int, e: int)
        requires
            self.wf(),
            0 <= i < self.maps.len(),
            0 <= e < self.maps@[i].items().len(),
        ensures
            self.at(self.maps@[i].items()[e].0.0, self.objects@[i]) == Some(
                self.maps@[i].items()[e].1,
            ),
    {
        assert(self.maps@[i].wf());
        self.maps@[i].lemma_index(e);
        self.lemma_at(i, self.maps@[i].items()[e].0.0);
    }

    /// A key stands in one place only.
    proof fn lemma_one_place(&self, i: int, e: int, j: int, f: int)
        requires
            self.wf(),
            0 <= i < self.maps.len(),
            0 <= e < self.maps@[i].items().len(),
            0 <= j < self.maps.len(),
            0 <= f < self.maps@[j].items().len(),
            self.maps@[i].items()[e].0 == self.maps@[j].items()[f].0,
            self.objects@[i] == self.objects@[j],
        ensures
            i == j,
            e == f,
    {
        if i < j {
            assert(self.objects@[i] != self.objects@[j]);
        } else if j < i {
            assert(self.objects@[j] != self.objects@[i]);
        }
        assert(self.maps@[i].wf());
        self.maps@[i].lemma_index(e);
        self.maps@[i].lemma_index(f);
    }

    /// Every key, once.
    pub fn keys(&self) -> (r: Vec<(IVec3, u32)>)
        requires
            self.wf(),
        ensures
            r@.no_duplicates(),
            forall|voxel: IVec3, obj_key: u32| #[trigger]
                r@.contains((voxel, obj_key)) <==> self.at(voxel, obj_key) is Some,
    {
        let mut out: Vec<(IVec3, u32)> = Vec::new();
        let mut i: usize = 0;
        while i < self.objects.len()
            invariant
                self.wf(),
                i <= self.objects.len(),
                out@.no_duplicates(),
                forall|v: IVec3, k: u32| #[trigger]
                    out@.contains((v, k)) <==> self.passed(i as int, 0, v, k),
            decreases self.objects.len() - i,
        {
            let k0: u32 = self.objects[i];
            let n: usize = self.maps[i].len();
            let mut e: usize = 0;
            while e < n
                invariant
                    self.wf(),
                    i < self.objects.len(),
                    k0 == self.objects@[i as int],
                    n == self.maps@[i as int].items().len(),
                    e <= n,
                    out@.no_duplicates(),
                    forall|v: IVec3, k: u32| #[trigger]
                        out@.contains((v, k)) <==> self.passed(i as int, e as int, v, k),
                decreases n - e,
            {
                let v0: IVec3 = self.maps[i].entry(e).0.0;
                let ghost before = out@;
                proof {
                    if self.passed(i as int, e as int, v0, k0) {
                        let (j, f) = choose|j: int, f: int|
                            0 <= j < self.maps.len() && 0 <= f < self.maps@[j].items().len() && (j < i
                                || (j == i && f < e)) && #[trigger] self.maps@[j].items()[f].0
                                == ChunkCoord(v0) && self.objects@[j] == k0;
                        self.lemma_one_place(i as int, e as int, j, f);
                    }
                    assert(!before.contains((v0, k0)));
                }
                out.push((v0, k0));
                proof {
                    assert forall|v: IVec3, k: u32| #[trigger]
                        out@.contains((v, k)) <==> self.passed(i as int, e + 1, v, k) by {
                        if before.contains((v, k)) {
                            let x = choose|x: int| 0 <= x < before.len() && before[x] == (v, k);
                            assert(out@[x] == (v, k));
                            assert(self.passed(i as int, e as int, v, k));
                        }
                        if (v, k) == (v0, k0) {
                            assert(out@[before.len() as int] == (v, k));
                            assert(self.maps@[i as int].items()[e as int].0 == ChunkCoord(v));
                        }
                        if self.passed(i as int, e + 1, v, k) && (v, k) != (v0, k0) {
                            assert(self.passed(i as int, e as int, v, k)) by {
                                let (j, f) = choose|j: int, f: int|
                                    0 <= j < self.maps.len() && 0 <= f < self.maps@[j].items().len()
                                        && (j < i || (j == i && f < e + 1))
                                        && #[trigger] self.maps@[j].items()[f].0 == ChunkCoord(v)
                                        && self.objects@[j] == k;
                                if j == i && f == e {
                                    assert((v, k) == (v0, k0));
                                }
                            }
                            assert(before.contains((v, k)));
                        }
                    }
                }
                e += 1;
            }
            proof {
                assert forall|v: IVec3, k: u32|
                    self.passed(i as int, n as int, v, k) <==> self.passed(i + 1, 0, v, k) by {
                    if self.passed(i as int, n as int, v, k) {
                        let (j, f) = choose|j: int, f: int|
                            0 <= j < self.maps.len() && 0 <= f < self.maps@[j].items().len() && (j < i
                                || (j == i && f < n)) && #[trigger] self.maps@[j].items()[f].0
                                == ChunkCoord(v) && self.objects@[j] == k;
                        assert(self.maps@[j].items()[f].0 == ChunkCoord(v));
                    }
                    if self.passed(i + 1, 0, v, k) {
                        let (j, f) = choose|j: int, f: int|
                            0 <= j < self.maps.len() && 0 <= f < self.maps@[j].items().len() && (j < i
                                + 1 || (j == i + 1 && f < 0)) && #[trigger] self.maps@[j].items()[f].0
                                == ChunkCoord(v) && self.objects@[j] == k;
                        assert(self.maps@[j].items()[f].0 == ChunkCoord(v));
                    }
                }
            }
            i += 1;
        }
        proof {
            assert forall|v: IVec3, k: u32| #[trigger]
                out@.contains((v, k)) <==> self.at(v, k) is Some by {
                let last = self.objects.len() as int;
                if self.passed(last, 0, v, k) {
                    let (j, f) = choose|j: int, f: int|
                        0 <= j < self.maps.len() && 0 <= f < self.maps@[j].items().len() && (j < last
                            || (j == last && f < 0)) && #[trigger] self.maps@[j].items()[f].0
                            == ChunkCoord(v) && self.objects@[j] == k;
                    self.lemma_at_entry(j, f);
                }
                if self.at(v, k) is Some {
                    let j = choose|j: int|
                        0 <= j < self.objects.len() && #[trigger] self.objects@[j] == k;
                    self.lemma_at(j, v);
                    let f = self.maps@[j].index_of(ChunkCoord(v));
                    assert(self.maps@[j].items()[f].0 == ChunkCoord(v));
                    assert(self.passed(last, 0, v, k));
                }
            }
        }
        out
    }
}

proof fn lemma_pushed<V: Copy>(o: FaceMap<V>, s: FaceMap<V>, obj_key: u32, v: IVec3, k: u32)
    requires
        o.wf(),
        s.wf(),
        s == o || (s.objects@ == o.objects@.push(obj_key) && s.maps@.len() == o.maps@.len() + 1 && (
        forall|i: int| 0 <= i < o.maps@.len() ==> #[trigger] s.maps@[i] == o.maps@[i]) && (forall|
            c: ChunkCoord,
        | !s.maps@[o.maps@.len() as int].has(c))),
    ensures
        s.at(v, k) == o.at(v, k),
{
    if s != o {
        if exists|j: int| 0 <= j < o.objects.len() && #[trigger] o.objects@[j] == k {
            let j = choose|j: int| 0 <= j < o.objects.len() && #[trigger] o.objects@[j] == k;
            assert(s.objects@[j] == k);
            o.lemma_at(j, v);
            s.lemma_at(j, v);
        } else if k == obj_key {
            let n = o.objects.len() as int;
            assert(s.objects@[n] == k);
            s.lemma_at(n, v);
        } else {
            assert forall|j: int| 0 <= j < s.objects.len() implies #[trigger] s.objects@[j] != k by {
                if j < o.objects.len() {
                    assert(o.objects@[j] != k);
                }
            }
        }
    }
}

/// Faces that were seen, by voxel and object: one bit for each face.
pub struct FaceRegistry {
    pub masks: FaceMap<u32>,
}

impl FaceRegistry {
    pub fn new() -> (r: Self)
        ensures
            r.masks.wf(),
            forall|voxel: IVec3, obj_key: u32| #[trigger] r.masks.at(voxel, obj_key) is None,
    {
        FaceRegistry { masks: FaceMap::new() }
    }

    /// Notes that a face was seen. There is room for every face.
    pub fn cpu_reference_registry_insert(&mut self, voxel: IVec3, obj_key: u32, face: u32) -> (r: bool)
        requires
            old(self).masks.wf(),
            face < 32,
        ensures
            r,
            final(self).masks.wf(),
            final(self).masks.at(voxel, obj_key) == Some(
                (match old(self).masks.at(voxel, obj_key) {
                    Some(m) => m,
                    None => 0u32,
                }) | (1u32 << face),
            ),
            forall|v: IVec3, k: u32|
                !(v == voxel && k == obj_key) ==> #[trigger] final(self).masks.at(v, k) == old(
                    self,
                ).masks.at(v, k),
    {
        let seen: u32 = match self.masks.get(voxel, obj_key) {
            Some(m) => m,
            None => 0,
        };
        self.masks.put(voxel, obj_key, seen | (1u32 << face));
        true
    }
}

/// Light of a voxel's faces, and the epoch in which it was last worked out.
#[derive(Debug, Clone, Copy)]
pub struct FaceLight<L> {
    pub epoch: u32,
    pub light: [L; 6],
}

/// A voxel whose seen faces are to be lit.
#[derive(Debug, Clone, Copy, PartialEq, Eq, Structural)]
pub struct FaceWork {
    pub voxel: IVec3,
    pub obj_key: u32,
    pub mask: u32,
}

/// Light by voxel and object. What light is made of does not matter here.
pub struct FaceLightCache<L> {
    pub lights: FaceMap<FaceLight<L>>,
}

/// Light that was worked out in this epoch stands for a voxel of the world. Objects move, so theirs
/// never does.
pub open spec fn still_lit<L>(kept: Option<FaceLight<L>>, obj_key: u32, epoch: u32) -> bool {
    obj_key == 0 && kept is Some && kept->0.epoch == epoch
}

impl<L: Copy> FaceLightCache<L> {
    pub fn new() -> (r: Self)
        ensures
            r.lights.wf(),
            forall|voxel: IVec3, obj_key: u32| #[trigger] r.lights.at(voxel, obj_key) is None,
    {
        FaceLightCache { lights: FaceMap::new() }
    }

    /// The seen voxels whose light does not stand any more, each once, with all its seen faces.
    pub fn due(&self, registry: &FaceRegistry, epoch: u32) -> (r: Vec<FaceWork>)
        requires
            self.lights.wf(),
            registry.masks.wf(),
        ensures
            r@.no_duplicates(),
            forall|w: FaceWork| #[trigger]
                r@.contains(w) <==> registry.masks.at(w.voxel, w.obj_key) == Some(w.mask)
                    && !still_lit(self.lights.at(w.voxel, w.obj_key), w.obj_key, epoch),
    {
        let keys: Vec<(IVec3, u32)> = registry.masks.keys();
        let mut out: Vec<FaceWork> = Vec::new();
        let mut i: usize = 0;
        while i < keys.len()
            invariant
                self.lights.wf(),
                registry.masks.wf(),
                keys@.no_duplicates(),
                forall|voxel: IVec3, obj_key: u32| #[trigger]
                    keys@.contains((voxel, obj_key)) <==> registry.masks.at(voxel, obj_key) is Some,
                i <= keys.len(),
                out@.no_duplicates(),
                forall|w: FaceWork| #[trigger]
                    out@.contains(w) <==> (exists|j: int|
                        0 <= j < i && #[trigger] keys@[j] == (w.voxel, w.obj_key))
                        && registry.masks.at(w.voxel, w.obj_key) == Some(w.mask) && !still_lit(
                        self.lights.at(w.voxel, w.obj_key),
                        w.obj_key,
                        epoch,
                    ),
            decreases keys.len() - i,
        {
            let (voxel, obj_key): (IVec3, u32) = keys[i];
            proof {
                assert(keys@[i as int] == (voxel, obj_key));
                assert(keys@.contains((voxel, obj_key)));
            }
            let stands: bool = match self.lights.get(voxel, obj_key) {
                Some(l) => obj_key == 0 && l.epoch == epoch,
                None => false,
            };
            let ghost before = out@;
            if !stands {
                if let Some(mask) = registry.masks.get(voxel, obj_key) {
                    let ghost w0 = FaceWork { voxel, obj_key, mask };
                    proof {
                        if before.contains(w0) {
                            let j = choose|j: int|
                                0 <= j < i && #[trigger] keys@[j] == (w0.voxel, w0.obj_key);
                            assert(keys@[j] == keys@[i as int]);
                        }
                    }
                    out.push(FaceWork { voxel, obj_key, mask });
                    proof {
                        assert(out@ == before.push(w0));
                        assert(out@[before.len() as int] == w0);
                    }
                }
            }
            proof {
                assert forall|w: FaceWork| #[trigger]
                    out@.contains(w) <==> (exists|j: int|
                        0 <= j < i + 1 && #[trigger] keys@[j] == (w.voxel, w.obj_key))
                        && registry.masks.at(w.voxel, w.obj_key) == Some(w.mask) && !still_lit(
                        self.lights.at(w.voxel, w.obj_key),
                        w.obj_key,
                        epoch,
                    ) by {
                    if before.contains(w) {
                        let x = choose|x: int| 0 <= x < before.len() && before[x] == w;
                        assert(out@[x] == w);
                        let j = choose|j: int|
                            0 <= j < i && #[trigger] keys@[j] == (w.voxel, w.obj_key);
                        assert(keys@[j] == (w.voxel, w.obj_key));
                    } else if exists|j: int|
                        0 <= j < i + 1 && #[trigger] keys@[j] == (w.voxel, w.obj_key) {
                        let j = choose|j: int|
                            0 <= j < i + 1 && #[trigger] keys@[j] == (w.voxel, w.obj_key);
                        if j == i {
                            assert((w.voxel, w.obj_key) == (voxel, obj_key));
                        } else {
                            assert(exists|j: int|
                                0 <= j < i && #[trigger] keys@[j] == (w.voxel, w.obj_key));
                        }
                    }
                    if out@.contains(w) && !before.contains(w) {
                        assert(keys@[i as int] == (w.voxel, w.obj_key));
                    }
                }
            }
            i += 1;
        }
        proof {
            assert forall|w: FaceWork| #[trigger]
                out@.contains(w) <==> registry.masks.at(w.voxel, w.obj_key) == Some(w.mask)
                    && !still_lit(self.lights.at(w.voxel, w.obj_key), w.obj_key, epoch) by {
                if registry.masks.at(w.voxel, w.obj_key) == Some(w.mask) {
                    assert(keys@.contains((w.voxel, w.obj_key)));
                    let j = choose|j: int|
                        0 <= j < keys@.len() && keys@[j] == (w.voxel, w.obj_key);
                    assert(keys@[j] == (w.voxel, w.obj_key));
                }
            }
        }
        out
    }

    /// Keeps new light for the faces of `work`. Faces that were not lit this time keep what they
    /// had, or are dark.
    pub fn store(&mut self, work: FaceWork, epoch: u32, light: [L; 6], dark: L)
        requires
            old(self).lights.wf(),
        ensures
            final(self).lights.wf(),
            final(self).lights.at(work.voxel, work.obj_key) matches Some(l) && l.epoch == epoch && (
            forall|f: u32|
                f < 6 ==> #[trigger] l.light@[f as int] == (if work.mask & (1u32 << f) != 0 {
                    light@[f as int]
                } else {
                    match old(self).lights.at(work.voxel, work.obj_key) {
                        Some(o) => o.light@[f as int],
                        None => dark,
                    }
                })),
            forall|v: IVec3, k: u32|
                !(v == work.voxel && k == work.obj_key) ==> #[trigger] final(self).lights.at(v, k)
                    == old(self).lights.at(v, k),
    {
        let kept: [L; 6] = match self.lights.get(work.voxel, work.obj_key) {
            Some(o) => o.light,
            None => [dark, dark, dark, dark, dark, dark],
        };
        let mut values: [L; 6] = kept;
        let mut f: u32 = 0;
        while f < 6
            invariant
                f <= 6,
                forall|g: u32|
                    g < 6 ==> #[trigger] values@[g as int] == (if g < f && work.mask & (1u32 << g) != 0 {
                        light@[g as int]
                    } else {
                        kept@[g as int]
                    }),
            decreases 6 - f,
        {
            if work.mask & (1u32 << f) != 0 {
                values[f as usize] = light[f as usize];
            }
            f += 1;
        }
        self.lights.put(work.voxel, work.obj_key, FaceLight { epoch, light: values });
    }

    /// Light of a face, where there is any.
    pub fn light_of(&self, voxel: IVec3, obj_key: u32, face: u32) -> (r: Option<L>)
        requires
            self.lights.wf(),
            face < 6,
        ensures
            r == (match self.lights.at(voxel, obj_key) {
                Some(l) => Some(l.light@[face as int]),
                None => None,
            }),
    {
        match self.lights.get(voxel, obj_key) {
            Some(l) => Some(l.light[face as usize]),
            None => None,
        }
    }
}

/// What is kept of a face of the world stays good within its epoch and no longer; that of an object is
/// always taken anew.
pub proof fn lemma_still_lit<L>(kept: FaceLight<L>, obj_key: u32, epoch: u32)
    ensures
        still_lit(Some(kept), 0, kept.epoch),
        !still_lit(None::<FaceLight<L>>, obj_key, epoch),
        epoch != kept.epoch ==> !still_lit(Some(kept), obj_key, epoch),
        obj_key > 0 ==> !still_lit(Some(kept), obj_key, epoch),
{
}

} // verus!
