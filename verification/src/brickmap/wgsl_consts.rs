//! Numbers that the shaders lay down as well.

use vstd::prelude::*;

verus! {

pub const CHUNK_SIZE: u32 = 256;

pub const BRICK_FACTOR: u32 = 4;

pub const MAX_LEVEL: u32 = 4;

/// Words of a node before its children.
pub const NODE_FIXED_WORDS: u32 = 3;

/// Chunks along a window's edge.
pub const CHUNK_INDEX_CAP: u32 = 64;

/// Tiles along a window's edge.
pub const TILE_INDEX_CAP: u32 = 64;

pub const CHUNK_INDEX_WORDS: u32 = 262144;

pub const TREE_BASE: u32 = 262144;

pub const PALETTE_WORDS: u32 = 131072;

pub const LEAF_INLINE_WORDS: u32 = 32;

pub const LEAF_VOXELS_PER_WORD: u32 = 2;

pub const CHUNK_COMP_WORDS: u32 = 2048;

pub const STATE_ENTRY_COUNT: u32 = 256;

pub const STATE_WORDS_PER_ENTRY: u32 = 4;

pub const STATE_TOTAL_WORDS: u32 = 1024;

} // verus!
