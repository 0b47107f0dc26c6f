//! The brick map: voxel trees, the words that shaders read of them, and what is done with both.

pub mod arena;
pub mod batch;
pub mod block;
pub mod builder;
pub mod consts;
pub mod coord_map;
pub mod dda;
pub mod dirty;
pub mod dump;
pub mod extract;
pub mod face_cache;
pub mod face_light;
pub mod free_runs;
pub mod grid;
pub mod laws;
pub mod lookup;
pub mod mov;
pub mod queue;
pub mod raytrace;
pub mod residency;
pub mod tree;
pub mod upload;
pub mod view;
pub mod vis_cache;
pub mod volumes;
pub mod wgsl_consts;
pub mod wire;
