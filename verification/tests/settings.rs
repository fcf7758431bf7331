use hollow::math::{div_euclid, rem_euclid, IVec2, IVec3};
use hollow::settings::{
    clamped_view_distance, present_with_vsync, window_plan, AntiAliasingMode, DisplayMode,
    GraphicsSettings, Msaa, ShadowQuality, WindowPlan,
};
use hollow::voxel::chunk_map::ChunkMap;
use hollow::voxel::data::{VoxelKind, COLLIDER_CHANGED, MESH_CHANGED};
use hollow::voxel::material::{texture_path, BlockLayerTable, BlockLayers, TexturePackId};
use hollow::voxel::rebuild::{
    border_halos, chunk_directions, chunk_origin, collider_plan, finish_generation,
    halo_neighbors, opposite, water_child_action, ColliderPlan, WaterChildAction,
};

#[test]
fn view_distance_is_clamped() {
    assert_eq!(clamped_view_distance(0), 4);
    assert_eq!(clamped_view_distance(10), 10);
    assert_eq!(clamped_view_distance(u32::MAX), 32);
    let settings = GraphicsSettings {
        view_distance: 1,
        ..GraphicsSettings::default()
    };
    assert_eq!(settings.effective_view_distance(), 4);
    assert_eq!(settings.normalized().view_distance, 4);
    assert_eq!(settings.normalized().anti_aliasing, AntiAliasingMode::Msaa4x);
}

#[test]
fn graphics_defaults() {
    let settings = GraphicsSettings::default();
    assert_eq!(settings.anti_aliasing, AntiAliasingMode::Msaa4x);
    assert!(settings.vsync);
    assert!(present_with_vsync(&settings));
    assert_eq!(settings.shadow_quality, ShadowQuality::Medium);
    assert_eq!(settings.view_distance, 10);
    assert_eq!(settings.display_mode, DisplayMode::BorderlessFullscreen);
}

#[test]
fn anti_aliasing_and_shadow_choices() {
    assert_eq!(AntiAliasingMode::Fxaa.msaa(), Msaa::Off);
    assert!(AntiAliasingMode::Fxaa.uses_fxaa());
    assert_eq!(AntiAliasingMode::Msaa8x.msaa(), Msaa::Sample8);
    assert!(!AntiAliasingMode::Msaa2x.uses_fxaa());
    assert_eq!(ShadowQuality::Off.map_size(), None);
    assert_eq!(ShadowQuality::High.map_size(), Some(4096));
    assert!(!ShadowQuality::Off.shadows_enabled());
    assert!(ShadowQuality::Low.shadows_enabled());
}

#[test]
fn window_plans() {
    assert_eq!(window_plan(DisplayMode::Windowed, true), WindowPlan::Keep);
    assert_eq!(window_plan(DisplayMode::Windowed, false), WindowPlan::MakeWindowed);
    assert_eq!(
        window_plan(DisplayMode::BorderlessFullscreen, false),
        WindowPlan::MakeBorderless
    );
}

#[test]
fn euclidean_division_rounds_down() {
    assert_eq!(div_euclid(-1, 16), -1);
    assert_eq!(rem_euclid(-1, 16), 15);
    assert_eq!(div_euclid(-16, 16), -1);
    assert_eq!(rem_euclid(-16, 16), 0);
    assert_eq!(div_euclid(17, 16), 1);
    assert_eq!(rem_euclid(17, 16), 1);
}

#[test]
fn texture_rows_and_paths() {
    let layers = |top, side, bottom| BlockLayers { top, side, bottom };
    let table = BlockLayerTable {
        grass: layers(0, 1, 2),
        dirt: layers(2, 2, 2),
        stone: layers(3, 3, 3),
        sand: layers(4, 4, 4),
        snow: layers(5, 6, 2),
        wood: layers(7, 8, 7),
        leaves: layers(8, 8, 8),
    };
    assert_eq!(table.texture_layer(VoxelKind::Grass, 1, true), 0);
    assert_eq!(table.texture_layer(VoxelKind::Grass, 1, false), 2);
    assert_eq!(table.texture_layer(VoxelKind::Grass, 0, true), 1);
    assert_eq!(table.texture_layer(VoxelKind::Wood, 2, false), 8);
    assert_eq!(table.config(VoxelKind::Water), None);
    assert_eq!(
        texture_path(TexturePackId::Meadow, "grass_top.png"),
        "voxel/packs/meadow/grass_top.png"
    );
    assert_eq!(TexturePackId::Twilight.label(), "Twilight");
    assert_eq!(TexturePackId::default(), TexturePackId::Replete);
    assert_eq!(TexturePackId::all().len(), 3);
}

#[test]
fn border_edits_reach_the_neighbour_halos() {
    // A corner cell touches two borders.
    assert_eq!(
        border_halos(IVec3::new(0, 3, 15), 16),
        vec![
            (IVec2::new(-1, 0), IVec3::new(16, 3, 15)),
            (IVec2::new(0, 1), IVec3::new(0, 3, -1)),
        ]
    );
    assert!(border_halos(IVec3::new(5, 3, 5), 16).is_empty());
    assert_eq!(
        halo_neighbors(IVec2::new(2, -3), IVec3::new(15, 0, 4), 16),
        vec![(IVec2::new(3, -3), IVec3::new(-1, 0, 4))]
    );
}

#[test]
fn chunk_geometry_helpers() {
    assert_eq!(
        chunk_directions(),
        [
            IVec2::new(-1, 0),
            IVec2::new(1, 0),
            IVec2::new(0, -1),
            IVec2::new(0, 1)
        ]
    );
    assert_eq!(opposite(IVec2::new(0, -1)), IVec2::new(0, 1));
    assert_eq!(chunk_origin(IVec2::new(-2, 3), 16), IVec2::new(-32, 48));
}

#[test]
fn rebuild_decisions() {
    assert_eq!(collider_plan(MESH_CHANGED, 10), ColliderPlan::Keep);
    assert_eq!(collider_plan(COLLIDER_CHANGED, 10), ColliderPlan::Replace);
    assert_eq!(collider_plan(COLLIDER_CHANGED | MESH_CHANGED, 0), ColliderPlan::Remove);
    assert_eq!(water_child_action(true, false), WaterChildAction::Spawn);
    assert_eq!(water_child_action(true, true), WaterChildAction::Update);
    assert_eq!(water_child_action(false, true), WaterChildAction::Despawn);
    assert_eq!(water_child_action(false, false), WaterChildAction::Nothing);
}

#[test]
fn finished_generations_respect_loaded_and_stored_chunks() {
    let mut pending: ChunkMap<u32> = ChunkMap::new();
    pending.insert(IVec2::new(0, 0), 1);
    pending.insert(IVec2::new(1, 0), 2);
    pending.insert(IVec2::new(2, 0), 3);
    let mut loaded: ChunkMap<u32> = ChunkMap::new();
    loaded.insert(IVec2::new(0, 0), 9);
    let mut stored: ChunkMap<u8> = ChunkMap::new();
    stored.insert(IVec2::new(0, 0), 40);
    stored.insert(IVec2::new(1, 0), 41);

    assert_eq!(finish_generation(IVec2::new(0, 0), &mut pending, &loaded, &mut stored), None);
    assert!(stored.contains_key(IVec2::new(0, 0)));
    assert_eq!(
        finish_generation(IVec2::new(1, 0), &mut pending, &loaded, &mut stored),
        Some(Some(41))
    );
    assert!(!stored.contains_key(IVec2::new(1, 0)));
    assert_eq!(
        finish_generation(IVec2::new(2, 0), &mut pending, &loaded, &mut stored),
        Some(None)
    );
    assert!(pending.is_empty());
}

#[test]
fn normalizing_twice_changes_nothing_more() {
    let mut settings = GraphicsSettings::default();
    for distance in [0u32, 4, 10, 32, 33, 1000] {
        settings.view_distance = distance;
        let once = settings.normalized();
        assert_eq!(once.normalized(), once);
    }
}
