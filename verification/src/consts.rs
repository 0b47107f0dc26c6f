//! Knobs of the renderer.

use vstd::prelude::*;

verus! {

/// Least edge of a window or render target, in pixels.
pub const MIN_DIM: u32 = 64;

/// Greatest edge of a window, in pixels.
pub const MAX_DIM: u32 = 4096;

/// Factor by which the render target is smaller than the window at start.
pub const RENDER_SCALE: u32 = 1;

} // verus!
