//! Rendering logic of a voxel engine: the brick map and its uploads, residency, probes, and the plans
//! that the graphics code carries out.

pub mod bits;
pub mod brickmap;
pub mod consts;
pub mod cpu_probe;
pub mod ddgi;
pub mod gi;
pub mod lighting;
pub mod math;
pub mod paths;
pub mod pbr_texture;
pub mod profiler;
pub mod requests;
pub mod responsive;
pub mod shader;
pub mod sort;
