//! Voxel world storage and the pure parts of streaming, meshing and region
//! bookkeeping.
pub mod data;
pub mod streaming;
pub mod settings;
pub mod chunk_map;
pub mod regions;
pub mod rebuild;
pub mod meshing;
pub mod material;
pub mod world;
pub mod builds;
