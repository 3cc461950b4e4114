//! Verified cores of a procedural voxel-world generator: L-system expansion,
//! voxelization of branch skeletons, connected rock clumps, understory shapes,
//! lattice hashing for value noise, terrain texture packing, the terrain column
//! rule, placement of generated features in the world, and the day clock face.

pub mod biome;
pub mod chunk;
pub mod clock;
pub mod console;
pub mod grammar;
pub mod grass;
pub mod order;
pub mod placement;
pub mod rock;
pub mod terrain;
pub mod noise;
pub mod textures;
pub mod understory;
pub mod voxelize;
