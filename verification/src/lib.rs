//! Voxel terrain engine core: chunk storage, face meshing, terrain filling
//! from sampled noise, and the chunk streaming decisions of the renderer.

pub mod chunk;
pub mod input;
pub mod mesh;
pub mod world;
pub mod worldgen;
