//! Material textures: how source pictures are packed into arrays of layers, and the table of
//! materials.
//!
//! Materials stand in the order of their names; layer `i` of both arrays belongs to material `i`. A
//! material whose pictures cannot be used is left out, and those behind it move up.

pub mod layers;
pub mod names;
pub mod set;
