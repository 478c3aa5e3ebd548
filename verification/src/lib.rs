//! Shared, deterministic game-simulation core: the block/voxel layer, the
//! data-driven block registry, block texture layers, region coordinates,
//! rollbackable input state, ghost mirrors, the world manager's region
//! lifecycle, client-side prediction reconciliation, and the browser
//! client's certificate-hash file.

pub mod registry;
pub mod block;
pub mod protocol;
pub mod input;
pub mod world_manager;
pub mod voxel;
pub mod state;
pub mod netcode;
pub mod block_textures;
pub mod region;
