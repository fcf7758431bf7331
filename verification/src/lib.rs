//! Game-logic core of the Hollow voxel game: voxel chunk storage, world
//! coordinates, chunk streaming order, render-region bookkeeping, greedy face
//! merging, and the player inventory.
pub mod math;
pub mod voxel;
pub mod inventory;
pub mod settings;
pub mod player;
pub mod dropped_item;
pub mod plugins;
