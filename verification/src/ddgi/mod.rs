//! Probes for diffuse global illumination: which slots they have and what one frame does with them.
//!
//! Five nested levels have cells of 4, 16, 32, 64 and 128 voxels. Slots of the finest level are
//! claimed at run time, brick by brick. The next level owns a fixed segment of slots for every chunk
//! that needs probes. The others tile the world's bounding box.

pub mod frame;
pub mod grid;
pub mod pool;
pub mod schedule;
