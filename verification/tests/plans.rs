//! Decisions and plans of the renderer.

use gate_render::bits::{count_ones, rank};
use gate_render::brickmap::consts::{LOD_REQ_WORDS, REQ_BASE, REQ_CAP, USE_BASE, USE_WORDS};
use gate_render::brickmap::coord_map::CoordMap;
use gate_render::brickmap::dda::{
    blit_uses_fxaa, den_atrous_chain, den_atrous_round, eye_writes, scale_choice, AuxTargets,
    DdaFrame, DdaPass, DdaReady, GiWords, PostFxSettings, RenderScale,
};
use gate_render::brickmap::face_cache::{FaceLightCache, FaceRegistry};
use gate_render::brickmap::face_light::{
    entry_bytes, face_index_from_normal, face_normal, fl_hash, fl_is_occupied, fl_pack_status_hash,
    fl_packed_key_hash, fl_unpack_hash, object_key, AxisPart, FaceLightState, FL_BUF_SIZE,
    FL_EPOCH_INVALID, FL_HASH_MASK, FL_PROBE_MAX, FL_REG_SLOTS, FL_STATUS_OCCUPIED, FL_WORDS_PER_SLOT,
    FL_WORKGROUP,
};
use gate_render::brickmap::mov::{
    obj_cell_occupied, obj_sample_voxel, object_fits, pack_mov_pool, step_cell, FineScan, MovObject,
    MovPoolPacked,
    TileFormat, CELL_DIR_WORDS, OBJ_WORLD, TILE_BITMAP_WORDS,
};
use gate_render::brickmap::grid::TreeDirty;
use gate_render::brickmap::queue::{poll_pending, EditQueue};
use gate_render::brickmap::residency::{
    chunk_distance, ladder_step, raw_level, settle_level, threshold_of, Residency, ResidencyPolicy,
};
use gate_render::brickmap::upload::{
    drain_counts, grow_size, next_revision, plan_growth, vram_warning, BindingLimits, BufferLayout,
    DirtyBox, Growth, UploadBudget, VoxelDumpRequest,
};
use gate_render::brickmap::vis_cache::{
    extract_vis_generation, VisCacheEnabled, VisCacheState, VisEnabledExtract, VisGenExtract,
};
use gate_render::brickmap::wgsl_consts;
use gate_render::cpu_probe::FrameMarks;
use gate_render::ddgi::frame::{
    build_cell_slot, build_lod0_table, extracted_stage, layout_slots, lod0_state_words, DdgiStage,
    DdgiWorldAabb,
};
use gate_render::ddgi::grid::DdgiWorldGrid;
use gate_render::ddgi::pool::{align_down, DdgiChunkGeom, DdgiChunkPool, DDGI_CHUNK_NO_BASE};
use gate_render::ddgi::schedule::{
    DdgiDirty, DdgiInput, DdgiPass, DdgiReady, DdgiState,
};
use gate_render::gi::{div_choice, world_changed, DenoiseConsts, DenoisePlan, GiSettings, GiState};
use gate_render::lighting::{nest_choice, ReflectionSettings};
use gate_render::math::{div_ceil, div_floor, rem_floor, ChunkCoord, IVec3, UVec2, UVec3};
use gate_render::paths::{assets_dir, data_dir, dda_wesl_dir, install_root, logs_dir};
use gate_render::pbr_texture::layers::{
    box_factor, build_mip_chain, halve_layer, mip_px_total, pack_layer,
};
use gate_render::pbr_texture::names::{comes_before, same_name};
use gate_render::pbr_texture::set::{
    build_material_asset_table, build_texture_arrays, slot_names, LoadState, LoadStep, Material,
    PbrLoad, PbrTextureSet, Picture,
};
use gate_render::profiler::{DiagFrameGap, GapReport};
use gate_render::requests::{diag_delta, req_rel, RequestReader};
use gate_render::responsive::{follow_window, render_size_for_window, size_is_sane, Resize};
use gate_render::shader::module_name;

fn v3(x: i32, y: i32, z: i32) -> IVec3 {
    IVec3::new(x, y, z)
}

fn cc(x: i32, y: i32, z: i32) -> ChunkCoord {
    ChunkCoord(v3(x, y, z))
}

fn px(x: u32, y: u32) -> UVec2 {
    UVec2 { x, y }
}

// ---- numbers ----

#[test]
fn floors_and_ceilings() {
    assert_eq!(div_floor(-1, 256), -1);
    assert_eq!(rem_floor(-1, 256), 255);
    assert_eq!(div_floor(-256, 256), -1);
    assert_eq!(rem_floor(-256, 256), 0);
    assert_eq!(div_floor(i32::MIN, 256), -8388608);
    assert_eq!(div_ceil(0, 8), 0);
    assert_eq!(div_ceil(9, 8), 2);
    assert_eq!(div_ceil(u32::MAX, 2), 2147483648);
    assert_eq!(count_ones(0b1011), 3);
    assert_eq!(rank(0b1011, 3), 2);
    assert_eq!(rank(u64::MAX, 64), 64);
}

#[test]
fn coord_map_keeps_keys_in_order() {
    let mut m: CoordMap<u32> = CoordMap::new();
    for (i, c) in [cc(3, 0, 0), cc(-1, 5, 0), cc(3, -2, 9)].into_iter().enumerate() {
        m.insert(c, i as u32);
    }
    assert_eq!(m.len(), 3);
    assert_eq!(m.entry(0).0, cc(-1, 5, 0));
    assert_eq!(m.entry(1).0, cc(3, -2, 9));
    assert_eq!(m.get(cc(3, 0, 0)), Some(&0));
    assert_eq!(m.remove(cc(3, -2, 9)), Some(2));
    assert_eq!(m.remove(cc(3, -2, 9)), None);
    assert!(!m.contains_key(cc(3, -2, 9)));
}

// ---- residency ----

const P: ResidencyPolicy = ResidencyPolicy {
    budget_bytes: 300,
    min_resident_frames: 10,
    pin_frames: 100,
    max_install_per_frame: 2,
};
const PX_ANG: f32 = 1.604e-3;
const BRICK_FACTOR: i32 = 4;
const CHUNK_SIZE: i32 = 256;

/// The level for a distance: floats measure, the ladder decides.
fn want_level(dist_voxels: f32, px_ang: f32, cur: i32) -> i32 {
    let fp = dist_voxels * px_ang;
    let mut reached = [false; 4];
    for i in 0..4 {
        reached[i] = fp >= ladder_step(i).1 as f32;
    }
    let raw = raw_level(reached);
    settle_level(raw, cur, fp < threshold_of(cur) as f32 * 0.75)
}

#[test]
fn ladder_thresholds_and_hysteresis() {
    let full = BRICK_FACTOR;
    assert_eq!(want_level(1000.0, PX_ANG, full), full);
    assert_eq!(want_level(4.0 / PX_ANG, PX_ANG, full), 16);
    assert_eq!(want_level(16.0 / PX_ANG, PX_ANG, full), 64);
    assert_eq!(want_level(64.0 / PX_ANG, PX_ANG, full), CHUNK_SIZE);
    assert_eq!(want_level(3.2 / PX_ANG, PX_ANG, 16), 16);
    assert_eq!(want_level(2.0 / PX_ANG, PX_ANG, 16), full);
}

#[test]
fn budget_off_never_evicts() {
    let mut r = Residency::new();
    r.tick(100);
    for i in 0..8 {
        r.note_resident(cc(i, 0, 0), 100, BRICK_FACTOR, 0);
    }
    let off = ResidencyPolicy { budget_bytes: 0, ..P };
    assert!(off.budget_is_off() && !P.budget_is_off());
    let plan = r.plan(&off, v3(0, 0, 0), &vec![], &vec![]);
    assert!(plan.install.is_empty() && plan.evict.is_empty());
    assert_eq!(r.resident_bytes(), 800);
}

#[test]
fn level_change_means_reinstall() {
    let mut r = Residency::new();
    r.tick(100);
    r.note_resident(cc(0, 0, 0), 100, BRICK_FACTOR, 0);
    r.note_resident(cc(1, 0, 0), 100, 16, 0);
    let wants = vec![(cc(0, 0, 0), 16), (cc(1, 0, 0), 16), (cc(2, 0, 0), 16)];
    let plan = r.plan(&P, v3(0, 0, 0), &wants, &vec![]);
    assert_eq!(plan.install, vec![(cc(0, 0, 0), 16), (cc(2, 0, 0), 16)]);
}

#[test]
fn pinned_not_downgraded() {
    let mut r = Residency::new();
    r.tick(100);
    r.note_resident(cc(0, 0, 0), 100, BRICK_FACTOR, 0);
    r.note_edit(cc(0, 0, 0), 100, P.pin_frames);
    let plan = r.plan(&P, v3(0, 0, 0), &vec![(cc(0, 0, 0), 16)], &vec![]);
    assert!(plan.install.is_empty());
    let up = r.plan(&P, v3(0, 0, 0), &vec![(cc(0, 0, 0), BRICK_FACTOR)], &vec![]);
    assert!(up.install.is_empty());
}

#[test]
fn over_budget_evicts_lru_first() {
    let mut r = Residency::new();
    r.tick(100);
    r.note_resident(cc(-20, 0, 0), 100, BRICK_FACTOR, 10);
    r.note_resident(cc(-21, 0, 0), 100, BRICK_FACTOR, 20);
    r.note_resident(cc(-22, 0, 0), 100, BRICK_FACTOR, 60);
    r.note_resident(cc(-23, 0, 0), 100, BRICK_FACTOR, 70);
    r.note_resident(cc(-24, 0, 0), 100, BRICK_FACTOR, 80);
    let plan = r.plan(&P, v3(0, 0, 0), &vec![], &vec![]);
    assert_eq!(plan.evict, vec![cc(-20, 0, 0), cc(-21, 0, 0)]);
}

#[test]
fn pinned_and_fresh_survive_eviction() {
    let mut r = Residency::new();
    r.tick(100);
    r.note_resident(cc(-20, 0, 0), 200, BRICK_FACTOR, 0);
    r.note_resident(cc(-21, 0, 0), 200, BRICK_FACTOR, 5);
    r.note_resident(cc(-22, 0, 0), 200, BRICK_FACTOR, 95);
    r.note_edit(cc(-20, 0, 0), 100, P.pin_frames);
    let plan = r.plan(&P, v3(0, 0, 0), &vec![], &vec![]);
    assert_eq!(plan.evict, vec![cc(-21, 0, 0)]);
}

#[test]
fn must_keep_wins() {
    let mut r = Residency::new();
    r.tick(100);
    r.note_resident(cc(-20, 0, 0), 400, BRICK_FACTOR, 0);
    let plan = r.plan(&P, v3(0, 0, 0), &vec![], &vec![cc(-20, 0, 0)]);
    assert!(plan.evict.is_empty());
}

#[test]
fn installs_are_capped_and_nearest_first() {
    let mut r = Residency::new();
    r.tick(100);
    let wants = vec![(cc(9, 0, 0), 16), (cc(2, 0, 0), 16), (cc(5, 0, 0), 16)];
    let plan = r.plan(&P, v3(0, 0, 0), &wants, &vec![]);
    assert_eq!(plan.install, vec![(cc(2, 0, 0), 16), (cc(5, 0, 0), 16)]);
}

#[test]
fn distance_is_chebyshev() {
    assert_eq!(chunk_distance(v3(0, 0, 0), v3(3, -5, 1)), 5);
}

#[test]
fn the_book_follows_what_happens() {
    let mut r = Residency::new();
    assert!(!r.is_resident(cc(0, 0, 0)));
    r.note_resident(cc(0, 0, 0), 100, 16, 3);
    assert_eq!(r.resident_level(cc(0, 0, 0)), Some(16));
    r.note_bytes(cc(0, 0, 0), 70);
    r.note_bytes(cc(9, 0, 0), 70);
    assert_eq!((r.resident_count(), r.resident_bytes()), (1, 70));
    r.note_gone(cc(0, 0, 0));
    assert_eq!((r.resident_count(), r.resident_bytes()), (0, 0));
    assert_eq!(r.resident_level(cc(0, 0, 0)), None);
}

// ---- requests ----

fn request(vol: u32, level: u32, rel: u32) -> u32 {
    vol << 21 | level << 18 | rel
}

#[test]
fn requests_are_merged_by_votes() {
    let mut reader = RequestReader::new();
    let mut words = vec![0u32; LOD_REQ_WORDS];
    let windows = vec![v3(-32, -32, -32), v3(0, 0, 0)];
    words[0] = 10;
    words[2] = 100;
    let first = reader.read(&words, &windows);
    assert_eq!((first.fresh, first.lost, first.distinct), (0, 0, 0));
    assert!(first.used.is_empty() && first.merged.is_empty());

    // five new requests: twice chunk 5, once 5 finer, once 7, once 5 of volume 1
    words[0] = 15;
    words[2] = 110;
    for (i, w) in [
        request(0, 2, 5),
        request(0, 1, 5),
        request(0, 2, 7),
        request(0, 3, 5),
        request(1, 0, 5),
    ]
    .into_iter()
    .enumerate()
    {
        words[REQ_BASE + 10 + i] = w;
    }
    // stamps: 105 is new, 99 is old, 0 is none
    words[USE_BASE + 3] = 105;
    words[USE_BASE + 4] = 99;
    words[USE_BASE + USE_WORDS + 64] = 101;
    let r = reader.read(&words, &windows);
    assert_eq!((r.fresh, r.lost, r.distinct), (5, 0, 3));
    assert_eq!(r.merged.len(), 3);
    assert_eq!((r.merged[0].vol, r.merged[0].votes, r.merged[0].level), (0, 3, 1));
    assert_eq!(r.merged[0].chunk, v3(-27, -32, -32));
    assert_eq!((r.merged[1].vol, r.merged[1].chunk, r.merged[1].votes), (0, v3(-25, -32, -32), 1));
    assert_eq!((r.merged[2].vol, r.merged[2].level), (1, 0));
    assert_eq!(r.used.len(), 2);
    assert_eq!((r.used[0].vol, r.used[0].chunk, r.used[0].stamp), (0, v3(-29, -32, -32), 105));
    assert_eq!((r.used[1].vol, r.used[1].chunk, r.used[1].stamp), (1, v3(0, 1, 0), 101));

    // the tables are clear again, and the counter wraps around
    words[0] = 15u32.wrapping_add(REQ_CAP as u32 + 7);
    let r = reader.read(&words, &windows);
    assert_eq!((r.fresh, r.lost), (REQ_CAP as u32 + 7, 7));
    let total: u32 = r.merged.iter().map(|m| m.votes).sum();
    assert_eq!(total as usize, REQ_CAP);
}

#[test]
fn packed_window_positions_and_counters() {
    assert_eq!(req_rel(63 | 1 << 6 | 2 << 12), v3(63, 1, 2));
    assert_eq!(diag_delta(None, [5, 6, 7]), [0, 0, 0]);
    assert_eq!(diag_delta(Some([5, 6, u32::MAX]), [6, 6, 1]), [1, 0, 2]);
}

// ---- uploads ----

#[test]
fn buffers_are_split_below_the_limit() {
    let large = BindingLimits { max_storage_buffer_binding_size: 1 << 30 };
    assert!(!large.force_multi());
    assert_eq!(BufferLayout::from_limits(&large), BufferLayout::Single);
    let mid = BindingLimits { max_storage_buffer_binding_size: 128 << 20 };
    assert!(mid.force_multi());
    assert_eq!(BufferLayout::from_limits(&mid), BufferLayout::Multi { node_slices: 1 });
    let small = BindingLimits { max_storage_buffer_binding_size: 1 << 20 };
    assert_eq!(BufferLayout::from_limits(&small), BufferLayout::Multi { node_slices: 16 });
}

#[test]
fn budgets_pay_for_chunks() {
    let b = UploadBudget::default();
    assert_eq!(drain_counts(&b, &vec![3, 2], &vec![0]), (16, 1));
    assert_eq!(drain_counts(&b, &vec![3, 2], &vec![9]), (16, 9));
    assert_eq!(drain_counts(&b, &vec![40, 9], &vec![2]), (49, 16));
    let tiny = UploadBudget { max_bytes_per_frame: 1, incremental: true };
    assert_eq!(drain_counts(&tiny, &vec![3], &vec![5]), (1, 1));
    let huge = UploadBudget { max_bytes_per_frame: 1 << 40, incremental: true };
    assert_eq!(drain_counts(&huge, &vec![1], &vec![500]), (64, 64));
}

fn queue_of(volume: usize, data: i32, comp: i32) -> EditQueue {
    let mut q = EditQueue::new(volume);
    for i in 0..data {
        let area = if i % 2 == 0 { Some((v3(i, 0, 0), v3(i + 1, 1, 1))) } else { None };
        let dirty = TreeDirty { reset: false, nodes: vec![(0, i as u32)] };
        q.push_data(cc(i, 0, 0), dirty, area);
    }
    for i in 0..comp {
        q.push_comp(cc(0, i, 0));
    }
    q
}

#[test]
fn a_chunk_waits_once_with_all_its_changes() {
    let mut q = EditQueue::new(0);
    let dirty = |reset, nodes: &[(u8, u32)]| TreeDirty { reset, nodes: nodes.to_vec() };
    q.push_data(cc(0, 0, 0), dirty(false, &[(3, 1), (1, 4), (0, 0)]), Some((v3(1, 1, 1), v3(2, 2, 2))));
    q.push_data(cc(1, 0, 0), dirty(false, &[(0, 0)]), None);
    q.push_data(cc(0, 0, 0), dirty(true, &[(3, 2), (2, 7), (0, 0)]), Some((v3(0, 3, 1), v3(1, 4, 2))));
    q.push_data(cc(1, 0, 0), dirty(false, &[(3, 9)]), Some((v3(0, 0, 0), v3(1, 1, 1))));
    q.push_comp(cc(5, 0, 0));
    q.push_comp(cc(5, 0, 0));
    let mut queues = vec![q];
    // one chunk a frame
    let budget = UploadBudget { max_bytes_per_frame: 1, incremental: true };
    let p = poll_pending(&mut queues, &budget, &mut false);
    assert_eq!((p.data_chunks.len(), p.comp_chunks.len()), (1, 1));
    let e = &p.data_chunks[0];
    assert_eq!((e.volume, e.chunk), (0, cc(0, 0, 0)));
    assert!(e.dirty.reset);
    assert_eq!(e.dirty.nodes, vec![(3, 1), (3, 2), (2, 7), (1, 4), (0, 0)]);
    assert_eq!((p.data_aabbs[0].lo, p.data_aabbs[0].hi), (v3(0, 1, 1), v3(2, 4, 2)));
    let p = poll_pending(&mut queues, &budget, &mut false);
    assert_eq!(p.data_chunks[0].chunk, cc(1, 0, 0));
    assert_eq!(p.data_chunks[0].dirty.nodes, vec![(3, 9), (0, 0)]);
    // where the voxels of one change are not known, those of both are not
    assert!(p.data_aabbs.is_empty() && queues[0].data.is_empty());
}

#[test]
fn queues_give_what_the_budget_pays_for() {
    // two chunks a frame
    let budget = UploadBudget { max_bytes_per_frame: 2 << 18, incremental: true };
    let mut queues = vec![queue_of(0, 3, 1), queue_of(1, 1, 4)];
    let mut rebuild = true;
    let p = poll_pending(&mut queues, &budget, &mut rebuild);
    assert!(p.force_full && !rebuild);
    let got: Vec<(usize, i32)> = p.data_chunks.iter().map(|e| (e.volume, e.chunk.0.x)).collect();
    assert_eq!(got, vec![(0, 0), (0, 1), (1, 0)]);
    assert_eq!(p.data_chunks[1].dirty.nodes, vec![(0, 1)]);
    let areas: Vec<(usize, i32)> = p.data_aabbs.iter().map(|a| (a.volume, a.lo.x)).collect();
    assert_eq!(areas, vec![(0, 0), (1, 0)]);
    assert_eq!(p.comp_chunks, vec![(0, cc(0, 0, 0)), (1, cc(0, 0, 0)), (1, cc(0, 1, 0))]);
    assert_eq!((queues[0].data.len(), queues[0].areas.len(), queues[0].comp.len()), (1, 1, 0));
    assert_eq!((queues[1].data.len(), queues[1].comp.len()), (0, 2));
    assert_eq!(queues[0].data[0].chunk, cc(2, 0, 0));

    // the next frame has the rest
    let p = poll_pending(&mut queues, &budget, &mut rebuild);
    assert!(!p.force_full);
    assert_eq!(p.data_chunks[0].chunk, cc(2, 0, 0));
    assert_eq!((p.data_chunks.len(), p.comp_chunks.len()), (1, 2));

    // more than three frames' worth goes at once
    let mut queues = vec![queue_of(0, 5, 0), queue_of(1, 2, 3)];
    let p = poll_pending(&mut queues, &budget, &mut rebuild);
    assert_eq!((p.data_chunks.len(), p.comp_chunks.len()), (7, 3));
    assert!(queues.iter().all(|q| q.data.is_empty() && q.areas.is_empty() && q.comp.is_empty()));
}

#[test]
fn boxes_join() {
    let mut a = DirtyBox { lo: v3(0, 0, 0), hi: v3(4, 4, 4) };
    let b = DirtyBox { lo: v3(4, -2, 1), hi: v3(9, 3, 3) };
    assert!(a.overlaps(&b) && b.overlaps(&a));
    assert!(!a.overlaps(&DirtyBox { lo: v3(5, 0, 0), hi: v3(6, 1, 1) }));
    a.union_with(&b);
    assert_eq!(a, DirtyBox { lo: v3(0, -2, 0), hi: v3(9, 4, 4) });
}

#[test]
fn a_dump_request_lives_for_two_frames() {
    let mut r = VoxelDumpRequest::default();
    r.tick();
    assert_eq!(r.pending, 0);
    r.arm();
    assert_eq!(r.pending, 2);
    r.tick();
    assert_eq!(r.pending, 1);
    r.tick();
    r.tick();
    assert_eq!(r.pending, 0);
}

#[test]
fn buffers_grow_by_doubling_and_then_by_reserve() {
    assert_eq!(grow_size(4, 100), 65536);
    assert_eq!(grow_size(65536, 70000), 131072);
    assert_eq!(grow_size(65536, 200000), 200000);
    assert_eq!(grow_size(0, 8 << 20), 32 << 20);
    assert_eq!(grow_size(0, (32 << 20) + 1), 64 << 20);
    assert_eq!(plan_growth(100, 100, true), Growth::Keep);
    assert_eq!(
        plan_growth(4, 100, true),
        Growth::Replace { size: 65536, copied: 4, written_from: 4 }
    );
    assert_eq!(
        plan_growth(4, 100, false),
        Growth::Replace { size: 65536, copied: 0, written_from: 0 }
    );
    assert_eq!(next_revision(7), 8);
    assert_eq!(next_revision(u64::MAX), 0);
    assert!(!vram_warning(&vec![1 << 30, 1 << 30]));
    assert!(vram_warning(&vec![1 << 30, 1 << 30, 1]));
    assert!(vram_warning(&vec![u64::MAX, u64::MAX]));
}

// ---- the passes of a frame ----

fn ready() -> DdaReady {
    DdaReady {
        common: true,
        beam: true,
        aux: true,
        face_table: true,
        gi: true,
        flatten: true,
        denoiser: true,
        temporal: true,
        atrous: [true; 5],
        face_accum: true,
        face: true,
        fog_read: true,
        trace: true,
        eye: true,
    }
}

const FRAME: DdaFrame = DdaFrame {
    size: UVec2 { x: 1281, y: 720 },
    gi_size: UVec2 { x: 320, y: 180 },
    gi_enabled: true,
    rounds: 2,
    eye_enabled: true,
    beam_on: true,
};

#[test]
fn passes_run_in_order() {
    let p = FRAME.dispatch_dda(&ready());
    assert_eq!(
        p,
        vec![
            DdaPass::Beam { x: 41, y: 23 },
            DdaPass::ClearFaces,
            DdaPass::Gi { x: 40, y: 23 },
            DdaPass::Flatten { x: 40, y: 23 },
            DdaPass::Temporal { x: 40, y: 23 },
            DdaPass::Atrous { round: 0, chain: 0, x: 40, y: 23 },
            DdaPass::Atrous { round: 1, chain: 4, x: 40, y: 23 },
            DdaPass::FaceAccum { x: 40, y: 23 },
            DdaPass::Face { x: 40, y: 23 },
            DdaPass::Fog,
            DdaPass::Trace { x: 161, y: 90 },
            DdaPass::EyeHistogram,
            DdaPass::EyeUpdate,
        ]
    );
    let none = DdaReady { common: false, ..ready() };
    assert!(FRAME.dispatch_dda(&none).is_empty());
    let no_fog = DdaReady { fog_read: false, beam: false, aux: false, ..ready() };
    assert_eq!(FRAME.dispatch_dda(&no_fog), vec![DdaPass::Fog]);
    let off = DdaFrame { gi_enabled: false, eye_enabled: false, beam_on: false, ..FRAME };
    assert_eq!(off.dispatch_dda(&ready()), vec![DdaPass::Fog, DdaPass::Trace { x: 161, y: 90 }]);
}

#[test]
fn filter_rounds_chain_up() {
    let rounds = |n: usize| -> Vec<usize> { (0..n).map(|i| den_atrous_round(n, i)).collect() };
    assert_eq!(rounds(1), vec![3]);
    assert_eq!(rounds(2), vec![0, 4]);
    assert_eq!(rounds(3), vec![0, 1, 2]);
    assert_eq!(rounds(4), vec![0, 1, 5, 4]);
    assert_eq!(rounds(5), vec![0, 1, 5, 1, 2]);
    let chains: Vec<(usize, usize)> = (0..6).map(den_atrous_chain).collect();
    assert_eq!(chains, vec![(0, 1), (1, 2), (2, 3), (0, 3), (1, 3), (2, 1)]);
}

#[test]
fn targets_are_made_when_sizes_change() {
    let words = GiWords { reservoir: 8, guide: 4, history: 6, face: 8, secondary: 10 };
    let den = DenoiseConsts { radius_fast: 1, radius: 2, rounds: 5 };
    let gi = GiSettings::default();
    let mut a = AuxTargets::new();
    let r = a.prepare(px(1280, 720), Some(gi), &words, &den);
    assert_eq!(r.make_beam, Some(px(320, 180)));
    let t = r.make_gi.expect("first frame");
    assert_eq!(t.size, px(320, 180));
    assert_eq!(t.reservoir_bytes, 320 * 180 * 8 * 4);
    assert_eq!(t.phi_bytes, 320 * 180 * 4);
    assert_eq!(t.face_slots, 131072);
    assert_eq!(t.face_bytes, 131072 * 8 * 4);
    assert!(r.make_den_cfg && r.sample_denoised);
    assert_eq!(r.write_radius, Some(1));
    assert_eq!((r.hist_prev, r.hist_cur), (0, 1));

    let r = a.prepare(px(1280, 720), Some(GiSettings { denoise: 0, ..gi }), &words, &den);
    assert_eq!((r.make_beam, r.make_gi, r.make_den_cfg), (None, None, false));
    assert!(!r.sample_denoised);
    assert_eq!(r.write_radius, None);
    assert_eq!((r.hist_prev, r.hist_cur), (1, 0));

    let r = a.prepare(
        px(1280, 720),
        Some(GiSettings { enabled: false, gi_div: 1, denoise: 3, ..gi }),
        &words,
        &den,
    );
    let t = r.make_gi.expect("another grid");
    assert_eq!(t.face_slots, 1 << 21);
    assert_eq!(r.write_radius, Some(2));
    assert_eq!((r.hist_prev, r.hist_cur), (0, 1));
    let r = a.prepare(px(1280, 720), None, &words, &den);
    assert_eq!((r.hist_prev, r.hist_cur), (0, 1));
    let tiny = a.prepare(px(4, 4), Some(gi), &words, &den).make_gi.unwrap();
    assert_eq!((tiny.size, tiny.face_slots, tiny.phi_bytes), (px(1, 1), 256, 4));
}

#[test]
fn smoothing_needs_full_resolution() {
    let on = Some(PostFxSettings { fxaa: true });
    assert!(blit_uses_fxaa(on, Some(RenderScale::default())));
    assert!(!blit_uses_fxaa(on, Some(RenderScale { factor: 2, ..RenderScale::default() })));
    assert!(blit_uses_fxaa(on, None));
    assert!(!blit_uses_fxaa(None, None));
    assert_eq!(RenderScale::default().size, px(1280, 720));
    assert_eq!((scale_choice(0), scale_choice(3), scale_choice(4)), (Some(1), Some(4), None));
    let e = eye_writes(true, false, true);
    assert!(!e.make && !e.dt && e.params && e.reset_exposure);
    let e = eye_writes(false, true, true);
    assert!(e.make && e.dt && e.params && !e.reset_exposure);
}

// ---- global illumination ----

#[test]
fn settings_are_clamped() {
    let s = GiSettings { gi_div: 9, denoise: 7, ..GiSettings::default() };
    assert_eq!((s.div(), s.tier()), (4, 3));
    assert_eq!(GiSettings { gi_div: 0, ..s }.div(), 1);
    let c = DenoiseConsts { radius_fast: 1, radius: 2, rounds: 5 };
    assert_eq!(s.denoise_plan(&c), DenoisePlan { on: true, rounds: 5, radius: 2 });
    assert_eq!(
        GiSettings { denoise: 1, ..s }.denoise_plan(&c),
        DenoisePlan { on: true, rounds: 5, radius: 1 }
    );
    assert_eq!(
        GiSettings { denoise: 0, ..s }.denoise_plan(&c),
        DenoisePlan { on: false, rounds: 0, radius: 1 }
    );
    assert_eq!(s.gi_size(px(1281, 3)), px(320, 1));
    assert_eq!(GiSettings::extracted(None), GiSettings::default());
    assert_eq!(GiSettings::extracted(Some(s)).gi_div, 4);
    assert_eq!((div_choice(2), div_choice(3)), (Some(4), None));
}

#[test]
fn reservoirs_are_checked_after_the_world_changed() {
    let mut s = GiState::new();
    let on = GiSettings::default();
    let a = s.prepare_gi(&on, world_changed(true, false, 0), true);
    assert!(!a.skip_verify && a.frame == 1 && (a.write, a.read) == (0, 1));
    let b = s.prepare_gi(&on, world_changed(false, false, 0), true);
    assert!(b.skip_verify && (b.write, b.read) == (1, 0));
    let off = GiSettings { enabled: false, ..on };
    let c = s.prepare_gi(&off, world_changed(false, false, 2), true);
    assert!(!c.skip_verify && !c.keep_view);
    let d = s.prepare_gi(&on, false, true);
    assert!(!d.skip_verify && (d.write, d.read) == (0, 1));
    assert!(s.prepare_gi(&on, false, true).skip_verify);
    assert!(world_changed(false, true, 0));
}

#[test]
fn mirrors_take_the_nearest_choice() {
    let s = |nest| ReflectionSettings { tier: 9, nest };
    assert_eq!(s(0).tier(), 3);
    assert_eq!(ReflectionSettings::default().tier(), 2);
    assert_eq!((s(0).nest(), s(1).nest(), s(2).nest()), (0, 1, 2));
    assert_eq!((s(3).nest(), s(4).nest(), s(100).nest()), (2, 4, 4));
    assert_eq!(nest_choice(3), 4);
}

// ---- probes ----

#[test]
fn chunk_grids_number_their_chunks() {
    assert_eq!(align_down(-1, 256), -256);
    assert_eq!(align_down(512, 256), 512);
    let g = DdgiChunkGeom::from_world(v3(-1, 0, 0), v3(300, 10, 256));
    assert_eq!(g.origin, v3(-2, -1, -1));
    assert_eq!(g.dims, UVec3 { x: 5, y: 3, z: 3 });
    assert_eq!(g.len(), 45);
    assert!(!g.is_empty());
    assert_eq!(g.linear(v3(-2, -1, -1)), Some(0));
    assert_eq!(g.linear(v3(2, 1, 1)), Some(44));
    assert_eq!(g.linear(v3(3, 0, 0)), None);
    assert_eq!(g.linear(v3(-3, 0, 0)), None);
    for i in 0..45 {
        assert_eq!(g.linear(g.coord(i)), Some(i));
    }
    let one = DdgiChunkGeom::from_world(v3(0, 0, 0), v3(255, 255, 255));
    assert_eq!(one.origin, v3(-1, -1, -1));
    assert_eq!(one.dims, UVec3 { x: 3, y: 3, z: 3 });
    let last = DdgiChunkGeom { origin: v3(i32::MAX, 0, 0), dims: UVec3 { x: 1, y: 1, z: 2 } };
    assert_eq!(last.coord(1), v3(i32::MAX, 0, 1));
    assert_eq!(last.linear(last.coord(1)), Some(1));
    assert_eq!(DdgiChunkGeom::default().dims, UVec3 { x: 1, y: 1, z: 1 });
}

#[test]
fn pools_keep_bases_and_reuse_segments() {
    let g = DdgiChunkGeom::from_world(v3(0, 0, 0), v3(300, 10, 10));
    let mut p = DdgiChunkPool::default();
    assert!(p.sync(g, &vec![v3(1, 0, 0), v3(0, 0, 0), v3(99, 0, 0)]));
    assert_eq!((p.serial, p.chunk_slots()), (1, 8192));
    let (a, b) = (g.linear(v3(0, 0, 0)).unwrap() as usize, g.linear(v3(1, 0, 0)).unwrap() as usize);
    assert_eq!((p.bases[a], p.bases[b]), (0, 4096));
    assert!(!p.sync(g, &vec![v3(0, 0, 0), v3(1, 0, 0)]));
    assert_eq!(p.serial, 1);
    // the first goes, another comes: the other one's base stays, then the freed one is used
    assert!(p.sync(g, &vec![v3(1, 0, 0)]));
    assert_eq!((p.bases[a], p.bases[b]), (DDGI_CHUNK_NO_BASE, 4096));
    assert_eq!(p.free, vec![0]);
    assert!(p.sync(g, &vec![v3(1, 0, 0), v3(0, 1, 0)]));
    let c = g.linear(v3(0, 1, 0)).unwrap() as usize;
    assert_eq!((p.bases[c], p.bases[b], p.chunk_slots()), (0, 4096, 8192));
    // another grid starts anew
    let g2 = DdgiChunkGeom::from_world(v3(0, 0, 0), v3(900, 10, 10));
    assert!(p.sync(g2, &vec![]));
    assert_eq!((p.chunk_slots(), p.serial), (0, 4));
}

#[test]
fn levels_cover_the_box() {
    let g = DdgiWorldGrid::from_world(v3(-1, 0, 0), v3(255, 64, 33), 0);
    assert_eq!(g.lod_origins[0], v3(-4, 0, 0));
    assert_eq!(g.lod_dims[0], UVec3 { x: 65, y: 16, z: 9 });
    assert_eq!(g.lod_dims[4], UVec3 { x: 3, y: 1, z: 1 });
    assert_eq!(g.lod_slot_base[1], 65 * 16 * 9);
    assert_eq!(g.lod_count(4), 3);
    assert_eq!(g.lod_slot_count(4), 3);
    assert_eq!((g.lod_cell_size(0), g.lod_cell_size(4)), (4, 128));
    assert!(!g.is_empty() && DdgiWorldGrid::default().is_empty());
    let wide = DdgiWorldGrid::from_world(v3(0, 0, 0), v3(128, 128, 128), 16);
    assert_eq!(wide.lod_origins[4], v3(-128, -128, -128));
    assert_eq!(wide.lod_dims[4], UVec3 { x: 3, y: 3, z: 3 });
}

#[test]
fn slots_are_laid_out_finest_first() {
    let base = DdgiWorldGrid::from_world(v3(0, 0, 0), v3(256, 256, 256), 0);
    // 512 + 64 + 8 slots for the coarser levels
    let g = layout_slots(&base, 4096, 5000);
    assert_eq!(g.lod_slot_base, [0, 320, 4416, 4928, 4992]);
    assert_eq!(g.total_slots, 5000);
    assert_eq!(g.lod_dims[0], UVec3 { x: 2, y: 2, z: 2 });
    let full = layout_slots(&base, 4096, 100);
    assert_eq!((full.lod_slot_base[1], full.total_slots), (0, 4680));
}

#[test]
fn probe_tables_point_both_ways() {
    let g = DdgiChunkGeom::from_world(v3(0, 0, 0), v3(10, 10, 10));
    let mut p = DdgiChunkPool::default();
    p.sync(g, &vec![v3(0, 0, 0), v3(1, 0, 0)]);
    let n = p.bases.len();
    let t = build_cell_slot(10, &p);
    assert_eq!(t.len(), 10 + n + 8192);
    assert!(t[..10].iter().all(|w| *w == 0));
    assert_eq!(&t[10..10 + n], &p.bases[..]);
    let (a, b) = (g.linear(v3(0, 0, 0)).unwrap(), g.linear(v3(1, 0, 0)).unwrap());
    assert_eq!((t[10 + n], t[10 + n + 4095]), (a, a));
    assert_eq!((t[10 + n + 4096], t[10 + n + 8191]), (b, b));

    let t = build_lod0_table(&p.bases, 16);
    assert_eq!(t.len(), n + 16 + 2 * 32768);
    assert_eq!(t[a as usize] as usize, n + 16);
    assert_eq!(t[b as usize] as usize, n + 16 + 32768);
    assert!(t[n..n + 16].iter().all(|w| *w == 0));
    assert!(t[n + 16..].iter().all(|w| *w == DDGI_CHUNK_NO_BASE));
    assert_eq!(t.iter().filter(|w| **w != 0).count(), n + 2 * 32768);
    assert_eq!(lod0_state_words(3), 1 + 3 * 1024);
}

fn input(chunks: Vec<IVec3>, revision: u64, will_run: bool) -> DdgiInput {
    DdgiInput {
        world: DdgiWorldAabb { min: v3(0, 0, 0), max: v3(256, 256, 256) },
        chunks,
        margin: 0,
        capacity: 20000,
        revision,
        will_run,
        dirty: None,
    }
}

#[test]
fn probes_are_baked_until_the_bake_has_run() {
    let mut s = DdgiState::new();
    let idle = s.prepare_ddgi(input(vec![v3(0, 0, 0)], 1, false));
    assert!(!idle.need_bake && idle.cell_slot.is_some() && idle.lod0.is_some());
    assert_eq!((s.total_slots, s.frame), (0, 1));
    let f = s.prepare_ddgi(input(vec![v3(0, 0, 0)], 1, true));
    assert!(f.need_bake && f.cell_slot.is_none() && f.lod0.is_none());
    assert!(!f.dirty.valid);
    assert_eq!(s.last_revision, 1);
    // the passes are not ready: the bake stays due
    let not_ready = DdgiReady { common: true, bake: false, cast: false };
    let full = DdgiStage::new(3);
    let p = s.dispatch_ddgi(full, false, not_ready, f.need_bake);
    assert_eq!(p.len(), 2);
    let f = s.prepare_ddgi(input(vec![v3(0, 0, 0)], 1, true));
    assert!(f.need_bake);
    let ready = DdgiReady { common: true, bake: true, cast: true };
    let p = s.dispatch_ddgi(full, false, ready, f.need_bake);
    assert_eq!(p.len(), 5 + 4);
    assert_eq!(p[1], DdgiPass::Bake { lod: 1, groups: 64 });
    assert_eq!(p[8], DdgiPass::Collect);
    assert_eq!(s.parity, 1);
    let mut i = input(vec![v3(0, 0, 0)], 1, true);
    i.dirty = Some(DdgiDirty { full: false, min_voxel: v3(1, 2, 3), max_voxel: v3(4, 5, 6) });
    let f = s.prepare_ddgi(i);
    assert!(!f.need_bake && f.dirty.valid && f.dirty.min == v3(1, 2, 3));
    // the finest level runs in every frame
    let p = s.dispatch_ddgi(full, false, ready, f.need_bake);
    assert_eq!(p.len(), 1 + 4);
    assert_eq!(s.parity, 0);
    // an edit asks for a bake again
    let mut i = input(vec![v3(0, 0, 0)], 2, true);
    i.dirty = Some(DdgiDirty { full: true, min_voxel: v3(0, 0, 0), max_voxel: v3(0, 0, 0) });
    let f = s.prepare_ddgi(i);
    assert!(f.need_bake && f.dirty.max == v3(1000000000, 1000000000, 1000000000));
    assert!(s.dispatch_ddgi(DdgiStage::new(0), false, ready, true).is_empty());
    assert_eq!(s.dispatch_ddgi(DdgiStage::new(0), true, ready, false).len(), 2);
}

#[test]
fn a_due_bake_outlasts_idle_frames() {
    let mut s = DdgiState::new();
    let chunks = || vec![v3(0, 0, 0)];
    assert!(s.prepare_ddgi(input(chunks(), 1, true)).need_bake && s.bake_pending);
    // no pass runs for a while, and nothing is dispatched
    for _ in 0..3 {
        assert!(!s.prepare_ddgi(input(chunks(), 1, false)).need_bake);
        assert!(s.bake_pending);
    }
    let f = s.prepare_ddgi(input(chunks(), 1, true));
    assert!(f.need_bake && s.bake_pending);
    let ready = DdgiReady { common: true, bake: true, cast: true };
    assert_eq!(s.dispatch_ddgi(DdgiStage::new(3), false, ready, f.need_bake).len(), 5 + 4);
    assert!(!s.bake_pending);
    assert!(!s.prepare_ddgi(input(chunks(), 1, true)).need_bake && !s.bake_pending);
}

#[test]
fn moved_segments_are_written_and_baked() {
    let mut s = DdgiState::new();
    let ready = DdgiReady { common: true, bake: true, cast: true };
    let (a, b) = (vec![v3(0, 0, 0)], vec![v3(1, 0, 0)]);
    for (i, chunks) in [a.clone(), b, a].into_iter().enumerate() {
        let f = s.prepare_ddgi(input(chunks, 1, true));
        assert!(f.need_bake && f.cell_slot.is_some() && f.lod0.is_some(), "frame {i}");
        assert_eq!(s.pool.serial, i as u64 + 1);
        let _ = s.dispatch_ddgi(DdgiStage::new(3), false, ready, true);
    }
    let f = s.prepare_ddgi(input(vec![v3(0, 0, 0)], 1, true));
    assert!(!f.need_bake && f.cell_slot.is_none() && f.lod0.is_none());
    assert_eq!(s.pool.serial, 3);
}

#[test]
fn stages_build_on_each_other() {
    assert_eq!(DdgiStage::new(9), DdgiStage(3));
    assert_eq!(DdgiStage::startup(2), DdgiStage(2));
    let s = DdgiStage(2);
    assert!(s.run_active() && s.run_cast() && !s.shade_gi());
    assert!(!DdgiStage::default().run_active());
    assert_eq!(extracted_stage(None), DdgiStage(0));
    assert_eq!(extracted_stage(Some(DdgiStage(200))), DdgiStage(3));
    assert_eq!(DdgiWorldAabb::default().max, v3(1, 1, 1));
}

// ---- faces ----

#[test]
fn fl_constants_contract() {
    assert_eq!(FL_REG_SLOTS, 2_097_152);
    assert_eq!(FL_WORDS_PER_SLOT, 28);
    assert_eq!(FL_PROBE_MAX, 64);
    assert_eq!(FL_WORKGROUP, 64);
    assert_eq!(FL_EPOCH_INVALID, u32::MAX);
    assert_eq!(FL_STATUS_OCCUPIED, 0x8000_0000);
    assert_eq!(FL_HASH_MASK, 0x3FFF_FFFF);
    assert_eq!(7 + 6 * 3 + 3, FL_WORDS_PER_SLOT);
    assert_ne!(wgsl_consts::TILE_INDEX_CAP, 0);
    assert_eq!(FL_BUF_SIZE, 2_097_152 * 28 * 4);
}

#[test]
fn fl_packed_hash_consistency_and_aggregation() {
    let v1 = v3(100, 200, 300);
    let v2 = v3(100, 200, 300);
    let v4 = v3(101, 200, 300);
    assert_eq!(fl_packed_key_hash(v1, 0), fl_packed_key_hash(v2, 0));
    assert_ne!(fl_packed_key_hash(v1, 0), fl_packed_key_hash(v4, 0));
    assert_ne!(fl_packed_key_hash(v1, 0), fl_packed_key_hash(v1, 1));
    for x in 0..64i32 {
        let h = fl_packed_key_hash(v3(x, x * 2, x * 3), 0);
        assert!(h < FL_HASH_MASK, "h={h}");
    }
    let packed = fl_pack_status_hash(v1, 0);
    assert!(fl_is_occupied(packed));
    assert_eq!(fl_unpack_hash(packed), fl_packed_key_hash(v1, 0));
    assert!(!fl_is_occupied(0));
    assert_eq!(fl_unpack_hash(0), 0);
}

#[test]
fn packed_hash_aggregates_concurrent_face_registers() {
    let voxel = v3(256, 512, 128);
    let obj_key = 0u32;
    let face_a = 0u32;
    let face_b = 1u32;
    let packed_p1 = fl_pack_status_hash(voxel, obj_key);
    assert!(fl_is_occupied(packed_p1));
    let stored = packed_p1;
    let match_hash = fl_unpack_hash(stored) == fl_packed_key_hash(voxel, obj_key);
    assert!(match_hash);
    let mut mask = 0u32;
    mask |= 1u32 << face_a;
    mask |= 1u32 << face_b;
    assert_eq!(mask, 0b000011);
}

#[test]
fn fl_hash_stability_and_spread() {
    let h1 = fl_hash(100, 200, 300, 0);
    assert_eq!(h1, fl_hash(100, 200, 300, 0));
    let mut slots = std::collections::HashSet::new();
    for i in 0..256u32 {
        slots.insert(fl_hash(i as i32 * 16, 64, 64, 0) % FL_REG_SLOTS);
    }
    assert!(slots.len() > 200, "{}", slots.len());
}

#[test]
fn seen_faces_are_gathered_by_voxel() {
    let mut r = FaceRegistry::new();
    assert!(r.cpu_reference_registry_insert(v3(1, 2, 3), 0, 3));
    assert!(r.cpu_reference_registry_insert(v3(1, 2, 3), 0, 0));
    assert!(r.cpu_reference_registry_insert(v3(1, 2, 3), 1, 5));
    assert!(r.cpu_reference_registry_insert(v3(-1, 2, 3), 0, 2));
    assert_eq!(r.masks.get(v3(1, 2, 3), 0), Some(0b1001));
    assert_eq!(r.masks.get(v3(1, 2, 3), 1), Some(0b100000));
    assert_eq!(r.masks.get(v3(-1, 2, 3), 0), Some(0b100));
    assert_eq!(r.masks.get(v3(-1, 2, 3), 1), None);
    assert_eq!(r.masks.get(v3(0, 0, 0), 7), None);
}

#[test]
fn light_is_kept_within_an_epoch() {
    let mut s = FaceLightState::default();
    assert_eq!(s.epoch, 1);
    s.face_light_epoch_tick(Some(0), Some(4), Some(false));
    assert_eq!(s.epoch, 2);
    s.face_light_epoch_tick(Some(0), Some(4), Some(false));
    assert_eq!(s.epoch, 2);
    s.face_light_epoch_tick(Some(2), None, None);
    s.face_light_epoch_tick(None, Some(5), None);
    s.face_light_epoch_tick(None, None, Some(true));
    assert_eq!(s.epoch, 5);
    assert_eq!((object_key(OBJ_WORLD), object_key(0)), (0, 1));
    assert_eq!((face_normal(0), face_normal(5)), (v3(-1, 0, 0), v3(0, 0, 1)));
    assert_eq!(entry_bytes(0x80_32_64_C8, 0x5A), (0xC8, 0x64, 0x32, 0x5A));
}

fn axis_parts(n: [f32; 3]) -> [AxisPart; 3] {
    n.map(|c| AxisPart { over: c.abs() > 0.5, under: c.abs() < 0.5, negative: c < 0.0 })
}

#[test]
fn face_index_normal_roundtrip() {
    for f in 0..6u32 {
        let n = face_normal(f);
        assert_eq!(
            face_index_from_normal(axis_parts([n.x as f32, n.y as f32, n.z as f32])),
            Some(f)
        );
    }
    assert_eq!(face_index_from_normal(axis_parts([1.0, 1.0, 0.0])), None);
    assert_eq!(face_index_from_normal(axis_parts([0.7, -0.7, 0.0])), None);
}

/// Lights what is due: `sun` where a face looks up, and a little everywhere.
fn light_faces(registry: &FaceRegistry, epoch: u32, sun: f32, cache: &mut FaceLightCache<f32>) {
    for work in cache.due(registry, epoch) {
        let mut light = [0.1; 6];
        light[3] += sun;
        cache.store(work, epoch, light, 0.0);
    }
}

#[test]
fn epoch_reuse_semantics() {
    let (world, object) = (v3(256, 511, 256), v3(100, 511, 100));
    let mut registry = FaceRegistry::new();
    registry.cpu_reference_registry_insert(world, 0, 3);
    registry.cpu_reference_registry_insert(object, 1, 3);

    let mut cache = FaceLightCache::new();
    light_faces(&registry, 1, 2.0, &mut cache);
    let first = cache.lights.get(world, 0).unwrap();
    assert_eq!(first.epoch, 1);
    assert_eq!(first.light, [0.0, 0.0, 0.0, 2.1, 0.0, 0.0]);

    // the same epoch again: nothing changes in the world
    light_faces(&registry, 1, 5.0, &mut cache);
    let again = cache.lights.get(world, 0).unwrap();
    assert_eq!((again.epoch, again.light), (first.epoch, first.light));
    assert_eq!(cache.light_of(object, 1, 3), Some(5.1));

    // another epoch: the world is lit again
    light_faces(&registry, 2, 2.0, &mut cache);
    let second = cache.lights.get(world, 0).unwrap();
    assert_eq!(second.epoch, 2);
    assert_eq!(second.light[3], first.light[3]);
    // objects are lit always
    assert_eq!(cache.lights.get(object, 1).unwrap().epoch, 2);

    // a face that is seen later joins the others
    registry.cpu_reference_registry_insert(world, 0, 0);
    light_faces(&registry, 3, 9.0, &mut cache);
    assert_eq!(cache.light_of(world, 0, 0), Some(0.1));
    assert_eq!(cache.light_of(world, 0, 3), Some(9.1));
    assert_eq!(cache.light_of(world, 0, 5), Some(0.0));
    assert_eq!(cache.light_of(world, 9, 5), None);
}

// ---- objects ----

const FORMAT: TileFormat = TileFormat {
    bitmap_base: 0,
    dir_base: 1024,
    node_stream_base: 33792,
    palette_words: 512,
    uniform_mask: 0xFF,
    has_l1: 0x100,
    has_l2: 0x200,
    has_l3: 0x400,
    has_brick: 0x800,
    tag_shift: 8,
    tag_mask: 3,
    tag_empty: 0,
    tag_leaf: 1,
    palette_shift: 0,
};

/// A box of one colour in the lowest corner of a tile.
fn object_box(ext: usize, pal: u32) -> MovObject {
    let mut b_struct = vec![0u32; FORMAT.node_stream_base];
    let n = ext / 16;
    for z in 0..n {
        for y in 0..n {
            for x in 0..n {
                let ci = z * 1024 + y * 32 + x;
                b_struct[ci / 32] |= 1 << (ci % 32);
                b_struct[FORMAT.dir_base + ci] = b_struct.len() as u32;
                b_struct.push(pal);
            }
        }
    }
    let node_words = (b_struct.len() - FORMAT.node_stream_base) as u32;
    MovObject {
        b_struct,
        b_leaves: vec![],
        b_palette: (0..600).map(|i| i + pal).collect(),
        tile_count: 1,
        node_words,
        brick_slabs: 0,
    }
}

#[test]
fn pack_layout_bases_sequential_and_content() {
    let a = object_box(64, 3);
    let b = object_box(32, 5);
    let (a_nodes, b_dirs, b_palette) = (
        a.node_words,
        b.b_struct[FORMAT.dir_base..FORMAT.dir_base + CELL_DIR_WORDS].to_vec(),
        b.b_palette[..FORMAT.palette_words].to_vec(),
    );
    let pool = pack_mov_pool(&vec![a, b], &FORMAT);
    assert_eq!(pool.descs.len(), 2);
    let d0 = &pool.descs[0];
    assert_eq!(d0.bitmap_base, 0);
    assert_eq!((d0.dir_base - d0.bitmap_base) as usize, TILE_BITMAP_WORDS);
    assert_eq!((d0.node_base - d0.dir_base) as usize, CELL_DIR_WORDS);
    let d1 = &pool.descs[1];
    assert_eq!(d1.bitmap_base as usize, d0.node_base as usize + a_nodes as usize);
    assert_eq!((d1.dir_base - d1.bitmap_base) as usize, TILE_BITMAP_WORDS);
    assert_eq!(d1.leaves_base as usize, 0);
    assert_eq!(
        &pool.mov_struct[d1.dir_base as usize..d1.dir_base as usize + CELL_DIR_WORDS],
        &b_dirs[..]
    );
    assert_eq!(
        &pool.mov_palette
            [d1.palette_base as usize..d1.palette_base as usize + FORMAT.palette_words],
        &b_palette[..]
    );
}

/// One cell with a slab: all `pal`, but `corner` in its lowest voxel.
fn slab_cell(pal: u32, corner: u32) -> MovObject {
    let mut b_struct = vec![0u32; FORMAT.node_stream_base];
    b_struct[0] = 1;
    b_struct[FORMAT.dir_base] = b_struct.len() as u32;
    b_struct.push(0x100 | 0x200 | 0x400 | 0x800);
    let leaf = |p: u32| 1 << 8 | p;
    let finer = 2u32 << 8;
    for words in [4usize, 32, 256] {
        b_struct.push(finer | leaf(pal) << 16);
        for _ in 1..words {
            b_struct.push(leaf(pal) | leaf(pal) << 16);
        }
    }
    b_struct.push(1);
    let node_words = (b_struct.len() - FORMAT.node_stream_base) as u32;
    let mut b_leaves = vec![pal * 0x0101_0101; 1024];
    b_leaves[0] = (b_leaves[0] & !0xFF) | corner;
    MovObject {
        b_struct,
        b_leaves,
        b_palette: vec![0; 512],
        tile_count: 1,
        node_words,
        brick_slabs: 1,
    }
}

/// The first colour on a ray that runs down the x axis.
fn first_down_x(pool: &MovPoolPacked, i: usize, y: i32, z: i32) -> u8 {
    let d = pool.descs[i];
    let mut cell = [31u32, (y / 16) as u32, (z / 16) as u32];
    loop {
        if obj_cell_occupied(pool, &d, cell) {
            let start = v3(cell[0] as i32 * 16 + 15, y, z);
            let mut scan = FineScan::new(start, cell, [false; 3]);
            for _ in 0..16 {
                let p = scan.look(pool, &d, &FORMAT);
                if p != 0 {
                    return p;
                }
                assert!(scan.step(0));
            }
        }
        match step_cell(cell, 0, false) {
            Some(c) => cell = c,
            None => return 0,
        }
    }
}

#[test]
fn l4_object_brick_slab_offset() {
    let (a, b) = (slab_cell(5, 3), slab_cell(6, 4));
    let slabs = a.brick_slabs;
    assert!(a.brick_slabs > 0 && b.brick_slabs > 0);
    let pool = pack_mov_pool(&vec![a, b], &FORMAT);
    assert_eq!(pool.descs[1].leaves_base, slabs);
    assert_eq!(first_down_x(&pool, 0, 8, 8), 5);
    assert_eq!(first_down_x(&pool, 1, 8, 8), 6);
    assert_eq!(first_down_x(&pool, 0, 100, 8), 0);
    let corner = |i: usize| obj_sample_voxel(&pool, &pool.descs[i], &FORMAT, v3(0, 0, 0));
    assert_eq!((corner(0), corner(1)), (3, 4));
    // outside the tile the nearest voxel counts
    assert_eq!(obj_sample_voxel(&pool, &pool.descs[1], &FORMAT, v3(-9, -1, 0)), 4);
}

#[test]
fn objects_lead_into_the_pool() {
    // one-colour nodes have one word each, the last one ends the pool
    let mut pool = pack_mov_pool(&vec![slab_cell(5, 3), object_box(32, 7)], &FORMAT);
    assert!(object_fits(&pool, &pool.descs[0], &FORMAT));
    assert!(object_fits(&pool, &pool.descs[1], &FORMAT));
    assert_eq!(obj_sample_voxel(&pool, &pool.descs[1], &FORMAT, v3(31, 31, 31)), 7);
    pool.mov_leaves.pop();
    assert!(!object_fits(&pool, &pool.descs[0], &FORMAT));
    assert!(object_fits(&pool, &pool.descs[1], &FORMAT));
    pool.mov_struct.pop();
    assert!(!object_fits(&pool, &pool.descs[1], &FORMAT));
}

#[test]
fn cells_end_at_the_tile() {
    assert_eq!(step_cell([31, 0, 5], 0, true), None);
    assert_eq!(step_cell([31, 0, 5], 1, false), None);
    assert_eq!(step_cell([31, 0, 5], 2, true), Some([31, 0, 6]));
    assert_eq!(step_cell([31, 0, 5], 0, false), Some([30, 0, 5]));
}

#[test]
fn a_scan_starts_in_its_cell_and_ends() {
    let mut s = FineScan::new(v3(40, -3, 17), [1, 0, 1], [true, false, true]);
    assert_eq!(s.at, v3(31, 0, 17));
    assert!(s.step(1) && s.step(0) && s.step(2));
    assert_eq!(s.at, v3(32, -1, 18));
    for _ in 3..48 {
        assert!(s.step(0));
    }
    assert!(!s.step(0));
    assert_eq!((s.at, s.left), (v3(77, -1, 18), 0));
}

// ---- textures ----

#[test]
fn chains_end_at_one_or_at_an_odd_edge() {
    assert_eq!(mip_px_total(1024), 1398101);
    assert_eq!(mip_px_total(1), 1);
    assert_eq!(mip_px_total(6), 36 + 9);
    let base: Vec<u8> = (0..16).collect();
    assert_eq!(halve_layer(&base, 4, 1), vec![3, 5, 11, 13]);
    let (all, levels) = build_mip_chain(base.clone(), 4, 1);
    assert_eq!(levels, 3);
    assert_eq!(all.len() as u64, mip_px_total(4));
    assert_eq!(&all[16..], &[3, 5, 11, 13, 8]);
    let two = vec![0u8, 100, 2, 102, 4, 104, 6, 107];
    assert_eq!(halve_layer(&two, 2, 2), vec![3, 103]);
    let (odd, levels) = build_mip_chain(vec![1u8; 36], 6, 1);
    assert_eq!((odd.len(), levels), (45, 2));
}

#[test]
fn layers_average_whole_boxes() {
    assert_eq!(box_factor(1024, 1024), Some(1));
    assert_eq!(box_factor(2048, 1024), Some(2));
    assert_eq!(box_factor(1000, 512), None);
    assert_eq!(box_factor(512, 1024), None);
    // two by two pixels into one: 10, 20, 30 and 41 average to 25
    let albedo = vec![10, 0, 0, 9, 20, 0, 0, 9, 30, 0, 4, 9, 41, 0, 0, 9];
    let arm = vec![7, 100, 200, 9, 7, 100, 200, 9, 7, 101, 200, 9, 7, 101, 201, 9];
    let (rgba, metal) = pack_layer(&albedo, &arm, px(2, 2), 2, 2, 1);
    assert_eq!(rgba, vec![25, 0, 1, 101]);
    assert_eq!(metal, vec![200]);
    let (rgba, metal) = pack_layer(&albedo, &arm, px(2, 2), 1, 1, 2);
    assert_eq!(&rgba[..8], &[10, 0, 0, 100, 20, 0, 0, 100]);
    assert_eq!(metal, vec![200, 200, 200, 201]);
}

fn picture(w: u32, h: u32, v: u8) -> Picture {
    Picture {
        width: w,
        height: h,
        layers: 1,
        rgba8: true,
        data: Some(vec![v; (w * h * 4) as usize]),
    }
}

fn material(id: &str, albedo: Option<Picture>, roughmetal: Option<Picture>) -> Material {
    Material { id: id.to_string(), albedo, roughmetal }
}

#[test]
fn arrays_hold_usable_materials_by_name() {
    let ready = vec![
        material("wood", Some(picture(2, 2, 50)), Some(picture(2, 2, 60))),
        material("brick", Some(picture(4, 4, 10)), Some(picture(4, 4, 20))),
        material("missing", None, Some(picture(2, 2, 0))),
        material("sizes", Some(picture(2, 2, 0)), Some(picture(4, 4, 0))),
        material("ratio", Some(picture(3, 3, 0)), Some(picture(3, 3, 0))),
        material("layers", Some(Picture { layers: 2, ..picture(2, 2, 0) }), Some(picture(2, 2, 0))),
        material("format", Some(Picture { rgba8: false, ..picture(2, 2, 0) }), Some(picture(2, 2, 0))),
        material("gone", Some(picture(2, 2, 0)), Some(Picture { data: None, ..picture(2, 2, 0) })),
        material("short", Some(Picture { height: 4, ..picture(2, 2, 0) }), Some(picture(2, 4, 0))),
    ];
    let a = build_texture_arrays(ready, 2).expect("two can be used");
    assert_eq!(a.ids, vec!["brick", "wood"]);
    assert_eq!(a.mip_levels, 2);
    assert_eq!(a.albedo_rough.len(), 2 * 5 * 4);
    assert_eq!(&a.albedo_rough[..4], &[10, 10, 10, 20]);
    assert_eq!(&a.albedo_rough[20..24], &[50, 50, 50, 60]);
    assert_eq!(a.metal, vec![20, 20, 20, 20, 20, 60, 60, 60, 60, 60]);
    assert!(build_texture_arrays(vec![material("x", None, None)], 2).is_none());
}

#[test]
fn names_come_in_order() {
    assert!(comes_before("a", "ab") && comes_before("ab", "b") && !comes_before("b", "b"));
    assert!(comes_before("", "a") && !comes_before("a", ""));
    assert!(same_name("metal", "metal") && !same_name("metal", "metals"));
    let names = ["rock", "Brick", "metal_plate", "bark"].map(String::from).to_vec();
    let mut std_order = names.clone();
    std_order.sort();
    assert_eq!(slot_names(names.clone(), 9), std_order);
    assert_eq!(slot_names(names, 2), std_order[..2].to_vec());
}

#[test]
fn materials_load_frame_by_frame() {
    let (w, l, f) = (LoadState::Loading, LoadState::Loaded, LoadState::Failed);
    let mut p = PbrLoad::new();
    assert_eq!(p.finish(&vec![]), LoadStep::Idle);
    p.start(4);
    p.start(9);
    assert_eq!(p.pending, vec![0, 1, 2, 3]);
    assert_eq!(p.finish(&vec![(l, w), (l, l), (f, w), (w, w)]), LoadStep::Wait);
    assert_eq!((p.pending.clone(), p.ready.clone()), (vec![0, 3], vec![1]));
    assert_eq!(p.finish(&vec![(l, l), (l, l), (f, w), (l, f)]), LoadStep::Build);
    assert_eq!((p.ready.clone(), p.done), (vec![1, 0], true));
    assert_eq!(p.finish(&vec![]), LoadStep::Idle);
}

#[test]
fn the_table_names_layers_and_the_demo_metal() {
    let set = PbrTextureSet {
        ids: ["bark", "metal_plate"].map(String::from).to_vec(),
        size: px(1024, 1024),
        layers: 2,
        mip_levels: 11,
    };
    assert_eq!((set.slot_of("metal_plate"), set.slot_of("x")), (Some(1), None));
    assert_eq!(set.bytes(), (2 * 4 * 1398101, 2 * 1398101));
    let t = build_material_asset_table(&set, 4);
    assert_eq!(t.len(), 4);
    assert_eq!((t[0].albedo_slot, t[1].roughmetal_slot, t[2].albedo_slot), (0, 1, u32::MAX));
    assert_eq!(t[0].height_slot, u32::MAX);
    assert_eq!(t[3].albedo_rough, 128 | 128 << 8 | 128 << 16 | 128 << 24);
    assert_eq!((t[0].emissive_metal, t[1].emissive_metal), (255 << 16, 255 << 16 | 255 << 8));
    assert_eq!(t[2].transmission_ior, 150 << 16);
}

// ---- windows, files, clocks ----

#[test]
fn the_target_follows_the_window() {
    assert!(size_is_sane(px(64, 4096)) && !size_is_sane(px(63, 100)) && !size_is_sane(px(64, 4097)));
    assert_eq!(render_size_for_window(px(1281, 100), 2), px(640, 64));
    assert_eq!(render_size_for_window(px(1281, 100), 0), px(1281, 100));
    let mut warned = false;
    assert_eq!(follow_window(px(0, 0), px(9, 9), 1, &mut warned), Resize::Degenerate { warn: true });
    assert_eq!(follow_window(px(0, 0), px(9, 9), 1, &mut warned), Resize::Degenerate { warn: false });
    assert_eq!(follow_window(px(800, 600), px(9, 9), 2, &mut warned), Resize::To(px(400, 300)));
    assert!(!warned);
    assert_eq!(follow_window(px(800, 600), px(400, 300), 2, &mut warned), Resize::Keep);
}

#[test]
fn directories_stand_below_the_root() {
    let s = |x: &str| x.to_string();
    assert_eq!(install_root(Some(s("/set")), Some(s("/exe")), true, s("/src")), "/set");
    assert_eq!(install_root(None, Some(s("/exe")), true, s("/src")), "/exe");
    assert_eq!(install_root(None, Some(s("/exe")), false, s("/src")), "/src");
    assert_eq!(install_root(None, None, true, s("/src")), "/src");
    for root in ["/opt/gate", "/", "", "a/"] {
        let std_path = |names: &[&str]| {
            let mut p = std::path::PathBuf::from(root);
            for n in names {
                p = p.join(n);
            }
            p.to_str().unwrap().to_string()
        };
        assert_eq!(assets_dir(root), std_path(&["assets"]));
        assert_eq!(logs_dir(root), std_path(&["logs"]));
        assert_eq!(data_dir(root), std_path(&["data"]));
        assert_eq!(dda_wesl_dir(root), std_path(&["assets", "shaders", "voxel_raytrace"]));
    }
    assert_eq!(module_name(Some("main")), "package::main");
    assert_eq!(module_name(Some("package")), "package");
    assert_eq!(module_name(None), "package");
}

#[test]
fn frames_are_timed_without_the_wait() {
    let mut m = FrameMarks::new();
    m.mark_queue(5);
    assert_eq!(m.queue, None);
    m.mark_extract(Some(10), 30);
    m.mark_create_views(35);
    m.mark_queue(1035);
    m.mark_graph_begin(1040);
    assert_eq!(m.finish(1050), None);
    m.mark_extract(Some(10), 30);
    m.mark_create_views(35);
    m.mark_queue(1035);
    m.mark_graph_begin(1040);
    m.mark_submit(1043);
    let t = m.finish(1050).expect("all marks");
    assert_eq!((t.seg_main, t.seg_pre, t.seg_acq), (20, 5, 1000));
    assert_eq!((t.seg_prep, t.seg_graph, t.seg_submit, t.total), (5, 3, 7, 40));
    assert_eq!(m, FrameMarks::new());
}

#[test]
fn the_cache_is_cleared_after_edits() {
    let (mut s, meta) = VisCacheState::init(false);
    assert_eq!((meta.enabled, meta.capacity_mask), (1, (1 << 22) - 1));
    assert_eq!(VisCacheState::init(true).1.enabled, 0);
    let (g, e) = extract_vis_generation(None, None);
    assert_eq!((g, e), (VisGenExtract(0), VisEnabledExtract(true)));
    let r = s.prepare(g, Some(e));
    assert!(!r.clear && r.meta.is_none());
    let (g, e) = extract_vis_generation(Some(4), Some(VisCacheEnabled(false)));
    let r = s.prepare(g, Some(e));
    assert!(r.clear);
    assert_eq!(r.meta.map(|m| m.enabled), Some(0));
    let r = s.prepare(g, None);
    assert!(!r.clear && r.meta.map(|m| m.enabled) == Some(1));
}

#[test]
fn sixty_frames_make_a_report() {
    let mut g = DiagFrameGap::default();
    g.diag_gap_begin(5);
    assert_eq!(g.diag_gap_end(10), None);
    for i in 1..60u64 {
        g.diag_gap_begin(i * 100 + 4);
        assert_eq!(g.diag_gap_end(i * 100 + 10), None);
    }
    g.diag_gap_begin(6004);
    assert_eq!(g.diag_gap_end(6010), Some(GapReport { frames: 60, total: 6000, busy: 360 }));
    assert_eq!((g.acc, g.acc_busy, g.n, g.prev_end), (0, 0, 0, Some(6010)));
}

#[test]
fn a_chunk_in_use_is_evicted_last() {
    let mut r = Residency::new();
    r.tick(100);
    r.note_resident(cc(-20, 0, 0), 200, BRICK_FACTOR, 10);
    r.note_resident(cc(-21, 0, 0), 200, BRICK_FACTOR, 20);
    assert_eq!(r.plan(&P, v3(0, 0, 0), &vec![], &vec![]).evict, vec![cc(-20, 0, 0)]);
    r.note_use(cc(-20, 0, 0), 80);
    r.note_use(cc(7, 7, 7), 80);
    assert_eq!(r.plan(&P, v3(0, 0, 0), &vec![], &vec![]).evict, vec![cc(-21, 0, 0)]);
    r.note_use(cc(-20, 0, 0), 5);
    assert_eq!(r.plan(&P, v3(0, 0, 0), &vec![], &vec![]).evict, vec![cc(-21, 0, 0)]);
}

#[test]
fn an_install_counts_as_a_use() {
    let (a, b) = (cc(0, 0, 0), cc(1, 0, 0));
    let mut r = Residency::new();
    r.tick(100);
    r.note_resident(a, 100, 4, 0);
    r.note_resident(b, 100, 4, 10);
    r.note_resident(a, 100, 16, 50);
    let p = ResidencyPolicy { budget_bytes: 100, min_resident_frames: 10, pin_frames: 100, max_install_per_frame: 2 };
    assert_eq!(r.plan(&p, v3(0, 0, 0), &vec![], &vec![]).evict, vec![b]);
    // a report at the level it has is no install
    r.note_resident(b, 100, 4, 90);
    assert_eq!(r.plan(&p, v3(0, 0, 0), &vec![], &vec![]).evict, vec![b]);
}
