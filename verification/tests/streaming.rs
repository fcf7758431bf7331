use hollow::math::IVec2;
use hollow::settings::GraphicsSettings;
use hollow::voxel::chunk_map::ChunkMap;
use hollow::voxel::settings::VoxelSettings;
use hollow::voxel::streaming::{
    apply_view_distance, plan_stream, StreamAction, StreamOffsets, StreamState,
};

fn length_squared(v: IVec2) -> i32 {
    v.x * v.x + v.y * v.y
}

#[test]
fn stream_offsets_are_unique_nearest_first_and_inside_radius() {
    let stream = StreamOffsets::new(2);
    let offsets = stream.offsets();
    assert_eq!(offsets.len(), 13);
    assert_eq!(offsets[0], IVec2::new(0, 0));
    assert!(offsets
        .windows(2)
        .all(|pair| length_squared(pair[0]) <= length_squared(pair[1])));
    assert!(offsets.iter().all(|offset| length_squared(*offset) <= 4));
    for (index, offset) in offsets.iter().enumerate() {
        assert!(!offsets[..index].contains(offset));
    }
}

#[test]
fn stream_offsets_break_ties_by_x_then_y() {
    let stream = StreamOffsets::new(1);
    assert_eq!(stream.len(), 5);
    assert_eq!(
        stream.offsets(),
        &vec![
            IVec2::new(0, 0),
            IVec2::new(-1, 0),
            IVec2::new(0, -1),
            IVec2::new(0, 1),
            IVec2::new(1, 0)
        ]
    );
    assert_eq!(stream.get(4), Some(IVec2::new(1, 0)));
    assert_eq!(stream.get(5), None);
    assert_eq!(StreamOffsets::new(0).len(), 1);
}

#[test]
fn view_distance_change_restarts_streaming() {
    let mut offsets = StreamOffsets::new(10);
    let mut state: StreamState<u32> = StreamState::new();
    state.center = Some(IVec2::new(0, 0));

    let settings = GraphicsSettings::default();
    apply_view_distance(&mut offsets, &mut state, settings.effective_view_distance());
    assert_eq!(offsets.radius, 10);
    assert_eq!(state.center, Some(IVec2::new(0, 0)));

    let settings = GraphicsSettings {
        view_distance: u32::MAX,
        ..GraphicsSettings::default()
    };
    apply_view_distance(&mut offsets, &mut state, settings.effective_view_distance());
    assert_eq!(offsets.radius, 32);
    assert_eq!(state.center, None);
}

#[test]
fn recentering_drops_far_work_and_spawns_nearest_first() {
    let offsets = StreamOffsets::new(1);
    let settings = VoxelSettings {
        spawn_budget_per_frame: 3,
        despawn_budget_per_frame: 1,
        ..VoxelSettings::default()
    };
    let mut state: StreamState<u32> = StreamState::new();
    let mut loaded: ChunkMap<u32> = ChunkMap::new();
    loaded.insert(IVec2::new(5, 5), 100);
    loaded.insert(IVec2::new(0, 0), 101);
    loaded.insert(IVec2::new(7, 0), 102);
    let mut pending: ChunkMap<u32> = ChunkMap::new();
    pending.insert(IVec2::new(9, 9), 200);
    pending.insert(IVec2::new(-1, 0), 201);
    let mut stored: ChunkMap<u8> = ChunkMap::new();
    stored.insert(IVec2::new(0, 1), 0);

    let actions = plan_stream(
        IVec2::new(0, 0),
        &offsets,
        &settings,
        &mut state,
        &loaded,
        &mut pending,
        &stored,
    );
    assert_eq!(
        actions,
        vec![
            StreamAction::Despawn(200),
            StreamAction::Despawn(102),
            StreamAction::Generate(IVec2::new(0, -1)),
            StreamAction::SpawnStored(IVec2::new(0, 1)),
            StreamAction::Generate(IVec2::new(1, 0)),
        ]
    );
    assert_eq!(state.center, Some(IVec2::new(0, 0)));
    assert_eq!(state.cursor, 5);
    assert_eq!(state.pending_despawns, vec![100]);
    assert_eq!(pending.len(), 1);
    assert!(pending.contains_key(IVec2::new(-1, 0)));

    // Same center: the despawn queue drains under the budget, the scan has ended.
    let actions = plan_stream(
        IVec2::new(0, 0),
        &offsets,
        &settings,
        &mut state,
        &loaded,
        &mut pending,
        &stored,
    );
    assert_eq!(actions, vec![StreamAction::Despawn(100)]);
    assert!(state.pending_despawns.is_empty());
    assert_eq!(state.cursor, 5);
}

#[test]
fn generation_limit_stops_the_spawn_scan() {
    let offsets = StreamOffsets::new(3);
    let settings = VoxelSettings::default();
    let mut state: StreamState<u32> = StreamState::new();
    let loaded: ChunkMap<u32> = ChunkMap::new();
    let mut pending: ChunkMap<u32> = ChunkMap::new();
    let near = [
        (-1, -1),
        (-1, 0),
        (-1, 1),
        (0, -1),
        (0, 0),
        (0, 1),
        (1, -1),
        (1, 0),
        (1, 1),
        (-2, 0),
        (0, -2),
        (0, 2),
        (2, 0),
        (2, 1),
        (1, 2),
    ];
    for (index, (x, y)) in near.iter().enumerate() {
        pending.insert(IVec2::new(*x, *y), index as u32);
    }
    let stored: ChunkMap<u8> = ChunkMap::new();

    let actions = plan_stream(
        IVec2::new(0, 0),
        &offsets,
        &settings,
        &mut state,
        &loaded,
        &mut pending,
        &stored,
    );
    assert_eq!(actions, vec![StreamAction::Generate(IVec2::new(-2, -1))]);
    assert_eq!(state.cursor, 14);
    assert_eq!(pending.len(), 15);
}

#[test]
fn stream_offsets_report_their_radius() {
    let stream = StreamOffsets::new(3);
    assert_eq!(stream.radius(), 3);
    assert_eq!(stream.radius, 3);
    assert_eq!(stream.len(), 29);
}
