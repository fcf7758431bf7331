use hollow::math::{IVec2, IVec3};
use hollow::voxel::chunk_map::ChunkMap;
use hollow::voxel::data::{ChunkVoxels, VoxelKind, COLLIDER_CHANGED, MESH_CHANGED};
use hollow::voxel::settings::VoxelSettings;
use hollow::voxel::world::{
    load_chunk, set_world_voxel, sync_spawned_halos, take_chunk_changes, unload_chunk, world_voxel,
};

fn air_chunk(size: i32, height: i32) -> ChunkVoxels {
    let cells = vec![VoxelKind::Air; (size * size * height) as usize];
    let halo = vec![VoxelKind::Air; (4 * size * height) as usize];
    ChunkVoxels::generated(size, height, cells, halo)
}

#[test]
fn voxel_world_reads_world_coordinates() {
    let settings = VoxelSettings {
        chunk_size: 2,
        max_height: 2,
        ..VoxelSettings::default()
    };
    let mut cells = vec![VoxelKind::Air; 8];
    cells[3] = VoxelKind::Water;
    let voxels = ChunkVoxels::generated(2, 2, cells, vec![VoxelKind::Air; 16]);

    let mut chunks: ChunkMap<ChunkVoxels> = ChunkMap::new();
    chunks.insert(IVec2::new(-1, 0), voxels);

    let exact = world_voxel(&settings, &chunks, IVec3::new(-1, 0, 1));
    let point: [f32; 3] = [-0.2, 0.4, 1.8];
    let floored = IVec3::new(
        point[0].floor() as i32,
        point[1].floor() as i32,
        point[2].floor() as i32,
    );
    let continuous = world_voxel(&settings, &chunks, floored);
    let unavailable = world_voxel(&settings, &chunks, IVec3::new(2, 0, 0));

    assert_eq!(exact, Some(VoxelKind::Water));
    assert_eq!(continuous, Some(VoxelKind::Water));
    assert_eq!(unavailable, None);
}

#[test]
fn world_positions_split_with_floor_division() {
    let settings = VoxelSettings::default();
    assert_eq!(
        settings.split_world_position(IVec3::new(-1, 7, 16)),
        (IVec2::new(-1, 1), IVec3::new(15, 7, 0))
    );
    assert_eq!(
        settings.split_world_position(IVec3::new(-17, -3, 15)),
        (IVec2::new(-2, 0), IVec3::new(15, -3, 15))
    );
    assert_eq!(settings.chunk_at(IVec3::new(-16, 0, 31)), IVec2::new(-1, 1));
}

#[test]
fn heights_outside_the_chunk_read_as_unavailable() {
    let settings = VoxelSettings {
        chunk_size: 2,
        ..VoxelSettings::default()
    };
    let mut chunks: ChunkMap<ChunkVoxels> = ChunkMap::new();
    chunks.insert(IVec2::new(0, 0), air_chunk(2, 2));
    assert_eq!(
        world_voxel(&settings, &chunks, IVec3::new(1, 1, 1)),
        Some(VoxelKind::Air)
    );
    assert_eq!(world_voxel(&settings, &chunks, IVec3::new(1, 2, 1)), None);
    assert_eq!(world_voxel(&settings, &chunks, IVec3::new(1, -1, 1)), None);
}

#[test]
fn edits_read_back_and_mark_rebuilds() {
    let mut chunk = air_chunk(2, 2);
    assert_eq!(chunk.take_changes(), MESH_CHANGED | COLLIDER_CHANGED);
    assert_eq!(chunk.changes(), 0);
    assert!(!chunk.modified());

    // Air to leaves: still not solid, so only the mesh changes.
    assert!(chunk.set(IVec3::new(1, 0, 1), VoxelKind::Leaves));
    assert_eq!(chunk.get(IVec3::new(1, 0, 1)), Some(VoxelKind::Leaves));
    assert_eq!(chunk.changes(), MESH_CHANGED);
    assert!(chunk.modified());

    // Leaves to stone: solidity changes, so the collider too.
    assert!(chunk.set(IVec3::new(1, 0, 1), VoxelKind::Stone));
    assert_eq!(chunk.changes(), MESH_CHANGED | COLLIDER_CHANGED);

    // Same value and out-of-bounds writes change nothing.
    assert_eq!(chunk.take_changes(), MESH_CHANGED | COLLIDER_CHANGED);
    assert!(!chunk.set(IVec3::new(1, 0, 1), VoxelKind::Stone));
    assert!(!chunk.set(IVec3::new(2, 0, 0), VoxelKind::Stone));
    assert!(!chunk.set(IVec3::new(0, 2, 0), VoxelKind::Stone));
    assert_eq!(chunk.changes(), 0);

    // Other cells are untouched.
    assert_eq!(chunk.get(IVec3::new(0, 0, 1)), Some(VoxelKind::Air));
    assert_eq!(chunk.get(IVec3::new(1, 1, 1)), Some(VoxelKind::Air));
    assert_eq!(chunk.get(IVec3::new(-1, 0, 0)), None);

    chunk.mark_all_changed();
    assert_eq!(chunk.changes(), MESH_CHANGED | COLLIDER_CHANGED);
}

#[test]
fn halo_samples_are_read_outside_the_cells() {
    let mut chunk = air_chunk(2, 1);
    assert!(chunk.set_halo(IVec3::new(-1, 0, 1), VoxelKind::Stone));
    assert!(!chunk.set_halo(IVec3::new(-1, 0, 1), VoxelKind::Stone));
    assert!(!chunk.set_halo(IVec3::new(-1, 0, -1), VoxelKind::Stone));
    assert!(!chunk.set_halo(IVec3::new(0, 0, 0), VoxelKind::Stone));
    assert_eq!(chunk.sample(IVec3::new(-1, 0, 1)), VoxelKind::Stone);
    assert_eq!(chunk.sample(IVec3::new(-1, 0, 0)), VoxelKind::Air);
    assert_eq!(chunk.sample(IVec3::new(5, 5, 5)), VoxelKind::Air);
    assert_eq!(chunk.get(IVec3::new(-1, 0, 1)), None);
    assert!(!chunk.modified());
}

#[test]
fn sync_halo_mirrors_the_neighbour_border() {
    let mut chunk = air_chunk(2, 2);
    let mut neighbor = air_chunk(2, 2);
    neighbor.set(IVec3::new(0, 1, 1), VoxelKind::Sand);
    neighbor.set(IVec3::new(1, 0, 0), VoxelKind::Stone);
    chunk.take_changes();

    // The neighbour lies in +x: this chunk's x = 2 halo mirrors its x = 0 cells.
    assert!(chunk.sync_halo(IVec2::new(1, 0), &neighbor));
    assert_eq!(chunk.sample(IVec3::new(2, 1, 1)), VoxelKind::Sand);
    assert_eq!(chunk.sample(IVec3::new(2, 0, 0)), VoxelKind::Air);
    assert_eq!(chunk.sample(IVec3::new(-1, 0, 0)), VoxelKind::Air);
    assert_eq!(chunk.changes(), MESH_CHANGED);

    // Nothing new to copy the second time.
    chunk.take_changes();
    assert!(!chunk.sync_halo(IVec2::new(1, 0), &neighbor));
    assert_eq!(chunk.changes(), 0);

    // From -x the x = -1 halo mirrors the neighbour's x = 1 cells.
    assert!(chunk.sync_halo(IVec2::new(-1, 0), &neighbor));
    assert_eq!(chunk.sample(IVec3::new(-1, 0, 0)), VoxelKind::Stone);

    // From -z the z = -1 halo mirrors the neighbour's z = 1 cells.
    assert!(chunk.sync_halo(IVec2::new(0, -1), &neighbor));
    assert_eq!(chunk.sample(IVec3::new(0, 1, -1)), VoxelKind::Sand);
}

#[test]
fn voxel_kinds_classify_solid_liquid_and_opaque() {
    assert!(VoxelKind::Stone.is_solid());
    assert!(!VoxelKind::Leaves.is_solid());
    assert!(VoxelKind::Leaves.is_opaque());
    assert!(!VoxelKind::Water.is_opaque());
    assert!(VoxelKind::Water.is_liquid());
    assert!(!VoxelKind::Air.is_solid());
    assert_eq!(VoxelKind::default(), VoxelKind::Air);
}

#[test]
fn clones_keep_every_cell() {
    let mut chunk = air_chunk(2, 1);
    chunk.set(IVec3::new(1, 0, 0), VoxelKind::Snow);
    let copy = chunk.clone();
    assert_eq!(copy.get(IVec3::new(1, 0, 0)), Some(VoxelKind::Snow));
    assert_eq!(copy.size(), 2);
    assert_eq!(copy.height(), 1);
    assert!(copy.modified());
}

#[test]
fn chunk_map_replaces_and_removes_by_key() {
    let mut map: ChunkMap<u32> = ChunkMap::new();
    assert!(map.is_empty());
    assert_eq!(map.insert(IVec2::new(1, 2), 5), None);
    assert_eq!(map.insert(IVec2::new(1, 2), 6), Some(5));
    assert_eq!(map.insert(IVec2::new(-1, 0), 7), None);
    assert_eq!(map.len(), 2);
    assert_eq!(map.get(IVec2::new(1, 2)), Some(&6));
    assert_eq!(map.keys(), vec![IVec2::new(1, 2), IVec2::new(-1, 0)]);
    assert_eq!(map.remove(IVec2::new(1, 2)), Some(6));
    assert_eq!(map.remove(IVec2::new(1, 2)), None);
    assert!(!map.contains_key(IVec2::new(1, 2)));
    map.clear();
    assert_eq!(map.len(), 0);
}

#[test]
fn world_edits_read_back_and_reach_neighbour_halos() {
    let settings = VoxelSettings {
        chunk_size: 2,
        max_height: 2,
        ..VoxelSettings::default()
    };
    let mut loaded: ChunkMap<ChunkVoxels> = ChunkMap::new();
    let mut stored: ChunkMap<ChunkVoxels> = ChunkMap::new();
    loaded.insert(IVec2::new(0, 0), air_chunk(2, 2));
    loaded.insert(IVec2::new(-1, 0), air_chunk(2, 2));
    stored.insert(IVec2::new(0, 1), air_chunk(2, 2));

    // The cell at world (0, 1, 1) is local (0, 1, 1) of chunk (0, 0): it borders
    // chunk (-1, 0) (loaded) on -x and chunk (0, 1) (stored) on +z.
    assert_eq!(
        set_world_voxel(&settings, &mut loaded, &mut stored, IVec3::new(0, 1, 1), VoxelKind::Stone),
        Some(true)
    );
    assert_eq!(
        world_voxel(&settings, &loaded, IVec3::new(0, 1, 1)),
        Some(VoxelKind::Stone)
    );
    assert_eq!(
        loaded.get(IVec2::new(-1, 0)).unwrap().sample(IVec3::new(2, 1, 1)),
        VoxelKind::Stone
    );
    assert_eq!(
        stored.get(IVec2::new(0, 1)).unwrap().sample(IVec3::new(0, 1, -1)),
        VoxelKind::Stone
    );
    assert_eq!(
        loaded.get(IVec2::new(-1, 0)).unwrap().changes() & MESH_CHANGED,
        MESH_CHANGED
    );

    // Writing the same kind again changes nothing.
    assert_eq!(
        set_world_voxel(&settings, &mut loaded, &mut stored, IVec3::new(0, 1, 1), VoxelKind::Stone),
        Some(false)
    );
    // Heights outside the chunk are no cell.
    assert_eq!(
        set_world_voxel(&settings, &mut loaded, &mut stored, IVec3::new(0, 5, 1), VoxelKind::Stone),
        Some(false)
    );
    // Chunks held nowhere are reported for generation.
    assert_eq!(
        set_world_voxel(&settings, &mut loaded, &mut stored, IVec3::new(9, 0, 9), VoxelKind::Stone),
        None
    );

    // An edit in a stored chunk is kept there.
    assert_eq!(
        set_world_voxel(&settings, &mut loaded, &mut stored, IVec3::new(1, 0, 3), VoxelKind::Sand),
        Some(true)
    );
    assert_eq!(
        world_voxel(&settings, &stored, IVec3::new(1, 0, 3)),
        Some(VoxelKind::Sand)
    );
    assert_eq!(world_voxel(&settings, &loaded, IVec3::new(1, 0, 3)), None);
    assert!(stored.get(IVec2::new(0, 1)).unwrap().modified());
}

#[test]
fn spawned_chunks_sync_halos_with_edited_neighbours() {
    let mut loaded: ChunkMap<ChunkVoxels> = ChunkMap::new();
    let mut stored: ChunkMap<ChunkVoxels> = ChunkMap::new();

    let mut east = air_chunk(2, 1);
    east.set(IVec3::new(0, 0, 1), VoxelKind::Stone);
    // An unedited neighbour: generated cells only.
    let mut west_cells = vec![VoxelKind::Air; 4];
    west_cells[1] = VoxelKind::Stone;
    let west = ChunkVoxels::generated(2, 1, west_cells, vec![VoxelKind::Air; 8]);
    let mut north = air_chunk(2, 1);
    north.set(IVec3::new(1, 0, 0), VoxelKind::Sand);

    loaded.insert(IVec2::new(1, 0), east);
    loaded.insert(IVec2::new(-1, 0), west);
    stored.insert(IVec2::new(0, 1), north);
    loaded.insert(IVec2::new(0, 0), air_chunk(2, 1));

    sync_spawned_halos(&mut loaded, &stored, IVec2::new(0, 0));
    let spawned = loaded.get(IVec2::new(0, 0)).unwrap();
    // Edited neighbours are copied, loaded or stored.
    assert_eq!(spawned.sample(IVec3::new(2, 0, 1)), VoxelKind::Stone);
    assert_eq!(spawned.sample(IVec3::new(1, 0, 2)), VoxelKind::Sand);
    // The unedited neighbour is left to the generator's halo.
    assert_eq!(spawned.sample(IVec3::new(-1, 0, 0)), VoxelKind::Air);
    // The spawned chunk carries no edits: its neighbours keep their halos.
    assert_eq!(
        loaded.get(IVec2::new(1, 0)).unwrap().sample(IVec3::new(-1, 0, 0)),
        VoxelKind::Air
    );
}

#[test]
fn edited_spawned_chunks_push_their_border_to_loaded_neighbours() {
    let mut loaded: ChunkMap<ChunkVoxels> = ChunkMap::new();
    let stored: ChunkMap<ChunkVoxels> = ChunkMap::new();
    loaded.insert(IVec2::new(6, 5), air_chunk(2, 1));
    loaded.insert(IVec2::new(5, 4), air_chunk(2, 1));
    let mut spawned = air_chunk(2, 1);
    spawned.set(IVec3::new(1, 0, 0), VoxelKind::Wood);
    loaded.insert(IVec2::new(5, 5), spawned);

    sync_spawned_halos(&mut loaded, &stored, IVec2::new(5, 5));
    // East neighbour: its x = -1 halo mirrors our x = 1 column.
    assert_eq!(
        loaded.get(IVec2::new(6, 5)).unwrap().sample(IVec3::new(-1, 0, 0)),
        VoxelKind::Wood
    );
    // South neighbour (z - 1): its z = 2 halo mirrors our z = 0 row.
    assert_eq!(
        loaded.get(IVec2::new(5, 4)).unwrap().sample(IVec3::new(1, 0, 2)),
        VoxelKind::Wood
    );
    assert_eq!(
        loaded.get(IVec2::new(6, 5)).unwrap().changes() & MESH_CHANGED,
        MESH_CHANGED
    );
}

#[test]
fn chunks_load_once_and_unload_into_storage_only_when_edited() {
    let mut loaded: ChunkMap<ChunkVoxels> = ChunkMap::new();
    let mut stored: ChunkMap<ChunkVoxels> = ChunkMap::new();
    let mut fresh = air_chunk(2, 1);
    fresh.take_changes();
    assert!(load_chunk(&mut loaded, IVec2::new(0, 0), fresh));
    assert!(!load_chunk(&mut loaded, IVec2::new(0, 0), air_chunk(2, 1)));
    assert_eq!(
        take_chunk_changes(&mut loaded, IVec2::new(0, 0)),
        MESH_CHANGED | COLLIDER_CHANGED
    );
    assert_eq!(take_chunk_changes(&mut loaded, IVec2::new(0, 0)), 0);
    assert_eq!(take_chunk_changes(&mut loaded, IVec2::new(3, 3)), 0);

    // An unedited chunk is dropped; an edited one is kept.
    assert!(unload_chunk(&mut loaded, &mut stored, IVec2::new(0, 0)));
    assert!(stored.is_empty());
    let mut edited = air_chunk(2, 1);
    edited.set(IVec3::new(0, 0, 0), VoxelKind::Dirt);
    assert!(load_chunk(&mut loaded, IVec2::new(1, 0), edited));
    assert!(unload_chunk(&mut loaded, &mut stored, IVec2::new(1, 0)));
    assert!(!unload_chunk(&mut loaded, &mut stored, IVec2::new(1, 0)));
    assert_eq!(
        world_voxel(&VoxelSettings { chunk_size: 2, ..VoxelSettings::default() }, &stored, IVec3::new(2, 0, 0)),
        Some(VoxelKind::Dirt)
    );
    assert!(loaded.is_empty());
}

#[test]
fn columns_fill_grass_dirt_stone_and_air() {
    assert_eq!(VoxelKind::terrain_at(4, 5), VoxelKind::Grass);
    assert_eq!(VoxelKind::terrain_at(1, 5), VoxelKind::Dirt);
    assert_eq!(VoxelKind::terrain_at(0, 5), VoxelKind::Stone);

    // Column heights under index x + size * z.
    let columns = vec![6, 1, 0, 5];
    // Side 1 (x = size) holds heights 2 and 0; the other sides are empty.
    let halo_columns = vec![0, 0, 2, 0, 0, 0, 0, 0];
    let chunk = ChunkVoxels::from_heights(2, 6, &columns, &halo_columns);
    assert_eq!(chunk.size(), 2);
    assert_eq!(chunk.height(), 6);
    assert_eq!(chunk.changes(), MESH_CHANGED | COLLIDER_CHANGED);
    assert!(!chunk.modified());
    assert_eq!(chunk.get(IVec3::new(0, 5, 0)), Some(VoxelKind::Grass));
    assert_eq!(chunk.get(IVec3::new(0, 4, 0)), Some(VoxelKind::Dirt));
    assert_eq!(chunk.get(IVec3::new(0, 2, 0)), Some(VoxelKind::Dirt));
    assert_eq!(chunk.get(IVec3::new(0, 1, 0)), Some(VoxelKind::Stone));
    assert_eq!(chunk.get(IVec3::new(1, 0, 0)), Some(VoxelKind::Grass));
    assert_eq!(chunk.get(IVec3::new(1, 1, 0)), Some(VoxelKind::Air));
    assert_eq!(chunk.get(IVec3::new(0, 0, 1)), Some(VoxelKind::Air));
    assert_eq!(chunk.get(IVec3::new(1, 4, 1)), Some(VoxelKind::Grass));
    assert_eq!(chunk.get(IVec3::new(1, 0, 1)), Some(VoxelKind::Stone));
    assert_eq!(chunk.sample(IVec3::new(2, 1, 0)), VoxelKind::Grass);
    assert_eq!(chunk.sample(IVec3::new(2, 0, 0)), VoxelKind::Dirt);
    assert_eq!(chunk.sample(IVec3::new(2, 0, 1)), VoxelKind::Air);
    assert_eq!(chunk.sample(IVec3::new(-1, 0, 0)), VoxelKind::Air);
}

#[test]
fn neighbours_whose_halo_already_matches_keep_their_rebuild_bits() {
    let mut loaded: ChunkMap<ChunkVoxels> = ChunkMap::new();
    let stored: ChunkMap<ChunkVoxels> = ChunkMap::new();
    let mut east = air_chunk(2, 1);
    east.set_halo(IVec3::new(-1, 0, 0), VoxelKind::Wood);
    east.take_changes();
    loaded.insert(IVec2::new(1, 0), east);
    let mut spawned = air_chunk(2, 1);
    spawned.set(IVec3::new(1, 0, 0), VoxelKind::Wood);
    loaded.insert(IVec2::new(0, 0), spawned);

    sync_spawned_halos(&mut loaded, &stored, IVec2::new(0, 0));
    // The east halo already held the spawned chunk's border: no rebuild.
    assert_eq!(loaded.get(IVec2::new(1, 0)).unwrap().changes(), 0);

    // A second edit that the east halo does not hold yet marks it again.
    let mut again = loaded.remove(IVec2::new(0, 0)).unwrap();
    again.set(IVec3::new(1, 0, 1), VoxelKind::Stone);
    loaded.insert(IVec2::new(0, 0), again);
    sync_spawned_halos(&mut loaded, &stored, IVec2::new(0, 0));
    assert_eq!(loaded.get(IVec2::new(1, 0)).unwrap().changes(), MESH_CHANGED);
}

#[test]
fn world_edits_mark_only_neighbours_whose_halo_changed() {
    let settings = VoxelSettings {
        chunk_size: 2,
        max_height: 1,
        ..VoxelSettings::default()
    };
    let mut loaded: ChunkMap<ChunkVoxels> = ChunkMap::new();
    let mut stored: ChunkMap<ChunkVoxels> = ChunkMap::new();
    loaded.insert(IVec2::new(0, 0), air_chunk(2, 1));
    // The west neighbour's +x halo already shows stone at the edited border.
    let mut west = air_chunk(2, 1);
    west.set_halo(IVec3::new(2, 0, 1), VoxelKind::Stone);
    west.take_changes();
    loaded.insert(IVec2::new(-1, 0), west);
    let mut north = air_chunk(2, 1);
    north.take_changes();
    loaded.insert(IVec2::new(0, 1), north);

    assert_eq!(
        set_world_voxel(&settings, &mut loaded, &mut stored, IVec3::new(0, 0, 1), VoxelKind::Stone),
        Some(true)
    );
    assert_eq!(loaded.get(IVec2::new(-1, 0)).unwrap().changes(), 0);
    assert_eq!(loaded.get(IVec2::new(0, 1)).unwrap().changes(), MESH_CHANGED);
}
