//! Knobs of the brick map.

use vstd::prelude::*;

verus! {

/// Initial width of the render target, in pixels.
pub const VIEW_W: u32 = 1280;

/// Initial height of the render target, in pixels.
pub const VIEW_H: u32 = 720;

/// Workgroup edge of the beam pass.
pub const WORKGROUP_SIZE: u32 = 8;

/// The beam depth texture is this much smaller than the target.
pub const BEAM_DIV: u32 = 4;

/// Steps that a CPU trace may take.
pub const CPU_TRACE_BUDGET: u32 = 65536;

/// Step from chunk to chunk (off: a trace ends after the slab test).
pub const DDA_CHUNKWALK: bool = true;

/// Draw only the sky.
pub const DDA_SKY_ONLY: bool = false;

/// Set grids up but do not trace them.
pub const DDA_MAKEGRID_ONLY: bool = false;

/// Stop early in the distance.
pub const DDA_LOD: bool = true;

/// Words of the level-of-detail counters.
pub const LOD_DIAG_WORDS: usize = 3;

/// Entries of the request ring.
pub const REQ_CAP: usize = 1048576;

/// Merged requests handed on per volume set.
pub const REQ_FEED_MAX: usize = 16384;

/// First word of the use stamps in the request buffer.
pub const USE_BASE: usize = 3;

/// Volumes that requests are kept for.
pub const VOLUMES: usize = 4;

/// Use stamps per volume: one for each chunk of a window.
pub const USE_WORDS: usize = 262144;

/// Words of the request buffer.
pub const LOD_REQ_WORDS: usize = 3 + USE_WORDS * VOLUMES + REQ_CAP;

/// First word of the request ring in the request buffer.
pub const REQ_BASE: usize = USE_BASE + USE_WORDS * VOLUMES;

/// Blocks per far level.
pub const FAR_POOL_CHUNKS: usize = 2048;

/// Words set aside per block of a far level.
pub const FAR_RESERVE_WORDS_PER_CHUNK: usize = 2048;

/// Words set aside for a far level.
pub const FAR_TREE_RESERVE_WORDS: usize = 4194304;

/// Index entry of a chunk that is known to have no content.
pub const INDEX_ENTRY_EMPTY: u32 = 0xFFFF_FFFF;

/// Run the beam pass.
pub const DDA_BEAM: bool = true;

/// Cull by the direction reach table.
pub const DDA_DIR_LUT: bool = true;

/// Automatic exposure at start.
pub const EYE_ADAPT: bool = true;

/// Bytes that one binding may have before buffers are split.
pub const SINGLE_THRESHOLD_BYTES: u64 = 1073741823;

/// Upload bytes reckoned per chunk.
pub const PER_CHUNK_BYTES: usize = 262144;

/// Upload bytes per frame without a budget of their own.
pub const UPLOAD_BYTES_PER_FRAME: usize = 4194304;

/// Bytes aimed at for a buffer slice.
pub const BUFFER_SLICE_TARGET: u64 = 67108864;

/// Least bytes of a buffer slice.
pub const BUFFER_SLICE_MIN: u64 = 4194304;

/// Bytes above which a buffer grows by a fixed reserve.
pub const BUFFER_GROW_BIG: u64 = 8388608;

/// That reserve.
pub const BUFFER_GROW_RESERVE: u64 = 33554432;

/// Bytes of video memory above which a warning is due.
pub const VRAM_WARN_BYTES: u64 = 2147483648;

} // verus!
