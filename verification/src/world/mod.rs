//! The voxel world: chunk storage, terrain rules, meshing and streaming.

pub mod chunk;
pub mod generator;
pub mod bits;
pub mod mesher;
pub mod manager;
