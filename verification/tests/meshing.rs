use hollow::math::IVec3;
use hollow::voxel::data::{ChunkVoxels, VoxelKind};
use hollow::voxel::meshing::{
    append_rebased, block_item_layers, chunk_face_layers, consume_mask, quad_count, quad_indices,
    quad_vertices, terrain_quad, water_layers, water_quad, Face, MaskQuad,
};

fn face(kind: VoxelKind, positive: bool) -> Option<Face> {
    Some(Face { kind, positive })
}

#[test]
fn water_is_greedy_and_non_colliding() {
    let mut cells = vec![VoxelKind::Air; 8];
    cells[..4].fill(VoxelKind::Water);
    cells[4] = VoxelKind::Leaves;
    cells[5] = VoxelKind::Wood;
    let voxels = ChunkVoxels::generated(2, 2, cells, vec![VoxelKind::Air; 16]);
    let water = water_layers(&voxels);
    assert_eq!(quad_count(&water) * 6, 6);
    assert_eq!(voxels.solid_positions(), vec![IVec3::new(1, 1, 0)]);
}

#[test]
fn append_offsets_vertices_and_rebases_indices() {
    let indices: Vec<u32> = vec![0, 1, 2];
    let mut combined: Vec<u32> = Vec::new();

    append_rebased(&mut combined, &indices, 0);
    append_rebased(&mut combined, &indices, 3);

    assert_eq!(combined, [0, 1, 2, 3, 4, 5]);
}

#[test]
fn consume_mask_merges_rows_then_grows_downwards() {
    let stone = face(VoxelKind::Stone, true);
    let sand = face(VoxelKind::Sand, true);
    // 3 columns x 2 rows:
    //   stone stone sand
    //   stone stone none
    let mut mask = vec![stone, stone, sand, stone, stone, None];
    let quads = consume_mask(&mut mask, 3, 2);
    assert_eq!(
        quads,
        vec![
            MaskQuad { x: 0, y: 0, width: 2, height: 2, face: stone.unwrap() },
            MaskQuad { x: 2, y: 0, width: 1, height: 1, face: sand.unwrap() },
        ]
    );
    assert!(mask.iter().all(|cell| cell.is_none()));
}

#[test]
fn consume_mask_keeps_faces_of_other_directions_apart() {
    let up = face(VoxelKind::Dirt, true);
    let down = face(VoxelKind::Dirt, false);
    let mut mask = vec![up, down, up, up];
    let quads = consume_mask(&mut mask, 2, 2);
    assert_eq!(
        quads,
        vec![
            MaskQuad { x: 0, y: 0, width: 1, height: 2, face: up.unwrap() },
            MaskQuad { x: 1, y: 0, width: 1, height: 1, face: down.unwrap() },
            MaskQuad { x: 1, y: 1, width: 1, height: 1, face: up.unwrap() },
        ]
    );
}

#[test]
fn an_empty_mask_gives_no_quads() {
    let mut mask: Vec<Option<Face>> = vec![None; 4];
    assert!(consume_mask(&mut mask, 2, 2).is_empty());
}

#[test]
fn a_lone_block_has_six_single_faces() {
    let layers = block_item_layers(VoxelKind::Stone);
    assert_eq!(layers.len(), 6);
    assert_eq!(quad_count(&layers), 6);
    let positives: usize = layers
        .iter()
        .flat_map(|layer| layer.quads.iter())
        .filter(|quad| quad.face.positive)
        .count();
    assert_eq!(positives, 3);
    assert!(layers
        .iter()
        .flat_map(|layer| layer.quads.iter())
        .all(|quad| quad.width == 1 && quad.height == 1 && quad.face.kind == VoxelKind::Stone));
}

#[test]
fn a_flat_floor_is_two_quads() {
    // A 2 x 2 floor of stone one voxel high, air above and around.
    let mut cells = vec![VoxelKind::Air; 8];
    cells[..4].fill(VoxelKind::Stone);
    let voxels = ChunkVoxels::generated(2, 2, cells, vec![VoxelKind::Air; 16]);
    let layers = chunk_face_layers(&voxels);
    assert_eq!(layers.len(), 3 + 3 + 3);
    // Top and bottom are each one 2 x 2 quad; each of the four sides is one 2 x 1 quad.
    assert_eq!(quad_count(&layers), 6);
    let top = layers.iter().find(|layer| layer.axis == 1 && layer.layer == 0).unwrap();
    assert_eq!(top.quads.len(), 1);
    assert_eq!(top.quads[0].width * top.quads[0].height, 4);
    assert!(top.quads[0].face.positive);
}

#[test]
fn quad_frames_and_vertices() {
    let q = MaskQuad {
        x: 1,
        y: 2,
        width: 3,
        height: 4,
        face: Face { kind: VoxelKind::Grass, positive: true },
    };
    // Axis y: columns run along z, rows along x; the face plane is at layer + 1.
    assert_eq!(
        terrain_quad(1, 5, q),
        (IVec3::new(2, 6, 1), IVec3::new(0, 0, 3), IVec3::new(4, 0, 0))
    );
    assert_eq!(
        water_quad(7, q),
        (IVec3::new(1, 8, 2), IVec3::new(0, 0, 4), IVec3::new(3, 0, 0))
    );
    assert_eq!(
        quad_vertices(IVec3::new(1, 1, 1), IVec3::new(2, 0, 0), IVec3::new(0, 3, 0)),
        [
            IVec3::new(1, 1, 1),
            IVec3::new(3, 1, 1),
            IVec3::new(3, 4, 1),
            IVec3::new(1, 4, 1)
        ]
    );
    assert_eq!(quad_indices(4, true), [4, 5, 6, 4, 6, 7]);
    assert_eq!(quad_indices(4, false), [4, 6, 5, 4, 7, 6]);
}
