use vstd::prelude::*;

use crate::math::{div_euclid, rem_euclid, IVec2, IVec3};

verus! {

/// The integer world layout: chunk width, column height, terrain seed and the
/// per-frame streaming budgets.
#[derive(Clone, Copy, Debug, PartialEq, Eq, Structural)]
pub struct VoxelSettings {
    pub chunk_size: i32,
    pub max_height: i32,
    pub seed: u32,
    pub spawn_budget_per_frame: usize,
    pub despawn_budget_per_frame: usize,
}

impl Default for VoxelSettings {
    fn default() -> (settings: Self)
        ensures
            settings.chunk_size == 16,
            settings.max_height == 40,
            settings.seed == 42,
            settings.spawn_budget_per_frame == 4,
            settings.despawn_budget_per_frame == 8,
    {
        VoxelSettings {
            chunk_size: 16,
            max_height: 40,
            seed: 42,
            spawn_budget_per_frame: 4,
            despawn_budget_per_frame: 8,
        }
    }
}

/// The chunk that holds a world column, and the position inside that chunk.
pub open spec fn split_position(chunk_size: int, world: IVec3) -> (IVec2, IVec3) {
    (
        IVec2 { x: (world.x as int / chunk_size) as i32, y: (world.z as int / chunk_size) as i32 },
        IVec3 { x: (world.x as int % chunk_size) as i32, y: world.y, z: (world.z as int % chunk_size) as i32 },
    )
}

impl VoxelSettings {
    /// Splits an integer world position into its chunk (Euclidean quotient by the
    /// chunk size, on x and z) and the local position (the remainders, y kept).
    pub fn split_world_position(&self, world: IVec3) -> (split: (IVec2, IVec3))
        requires
            self.chunk_size > 0,
        ensures
            split == split_position(self.chunk_size as int, world),
            0 <= split.1.x < self.chunk_size,
            0 <= split.1.z < self.chunk_size,
            split.1.y == world.y,
            split.0.x * self.chunk_size + split.1.x == world.x,
            split.0.y * self.chunk_size + split.1.z == world.z,
    {
        let cs = self.chunk_size;
        let chunk = IVec2 { x: div_euclid(world.x, cs), y: div_euclid(world.z, cs) };
        let local = IVec3 { x: rem_euclid(world.x, cs), y: world.y, z: rem_euclid(world.z, cs) };
        proof {
            vstd::arithmetic::div_mod::lemma_fundamental_div_mod(world.x as int, cs as int);
            vstd::arithmetic::div_mod::lemma_fundamental_div_mod(world.z as int, cs as int);
            assert(chunk.x * cs == cs * chunk.x) by (nonlinear_arith);
            assert(chunk.y * cs == cs * chunk.y) by (nonlinear_arith);
        }
        (chunk, local)
    }

    /// The chunk that holds the voxel cell at an integer world position (the
    /// caller floors a continuous position to its cell).
    pub fn chunk_at(&self, world_cell: IVec3) -> (chunk: IVec2)
        requires
            self.chunk_size > 0,
        ensures
            chunk == split_position(self.chunk_size as int, world_cell).0,
    {
        self.split_world_position(world_cell).0
    }
}

} // verus!
