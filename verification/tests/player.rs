use hollow::dropped_item::{can_pick_up, drop_age, is_expired, LIFETIME_NANOS, PICKUP_DELAY_NANOS};
use hollow::player::{
    axis_input, gait, has_shore_clearance, next_surface_rising, swim_sprinting, swim_vertical,
    Gait, SwimVertical,
};
use hollow::plugins::animation::{next_frame, SpriteAnimationIndices};
use hollow::voxel::data::VoxelKind;

#[test]
fn shore_exit_requires_a_solid_step_and_two_clear_voxels() {
    assert!(has_shore_clearance([
        Some(VoxelKind::Sand),
        Some(VoxelKind::Air),
        Some(VoxelKind::Air),
    ]));
    assert!(!has_shore_clearance([
        Some(VoxelKind::Sand),
        Some(VoxelKind::Stone),
        Some(VoxelKind::Air),
    ]));
    assert!(!has_shore_clearance([
        Some(VoxelKind::Water),
        Some(VoxelKind::Air),
        Some(VoxelKind::Air),
    ]));
}

#[test]
fn shore_exit_needs_loaded_voxels() {
    assert!(!has_shore_clearance([Some(VoxelKind::Sand), None, Some(VoxelKind::Air)]));
    assert!(!has_shore_clearance([None, Some(VoxelKind::Air), Some(VoxelKind::Air)]));
    assert!(has_shore_clearance([
        Some(VoxelKind::Stone),
        Some(VoxelKind::Leaves),
        Some(VoxelKind::Water),
    ]));
}

#[test]
fn opposite_keys_cancel() {
    assert_eq!(axis_input(true, false), 1);
    assert_eq!(axis_input(false, true), -1);
    assert_eq!(axis_input(true, true), 0);
    assert_eq!(axis_input(false, false), 0);
}

#[test]
fn surface_rising_starts_deep_and_stops_on_release() {
    assert!(next_surface_rising(false, true, true, true));
    assert!(!next_surface_rising(true, false, true, true));
    assert!(!next_surface_rising(true, true, false, false));
    assert!(next_surface_rising(true, true, false, true));
    assert!(!next_surface_rising(false, true, false, true));
}

#[test]
fn swimming_controls_pick_the_vertical_push() {
    assert_eq!(swim_vertical(true, true, true, true), SwimVertical::Sink);
    assert_eq!(swim_vertical(false, true, true, true), SwimVertical::Hold);
    assert_eq!(swim_vertical(false, false, true, true), SwimVertical::Rise);
    assert_eq!(swim_vertical(false, false, true, false), SwimVertical::Surface);
    assert_eq!(swim_vertical(false, false, false, true), SwimVertical::Hold);
    assert!(swim_sprinting(true, false, 1));
    assert!(!swim_sprinting(true, true, 1));
    assert!(!swim_sprinting(true, false, 0));
    assert!(!swim_sprinting(true, false, -1));
}

#[test]
fn sneaking_wins_over_sprinting() {
    assert_eq!(gait(true, true), Gait::Sneak);
    assert_eq!(gait(false, true), Gait::Sprint);
    assert_eq!(gait(false, false), Gait::Walk);
}

#[test]
fn dropped_items_wait_before_pickup_and_expire() {
    assert_eq!(drop_age(10, 4), 6);
    assert_eq!(drop_age(4, 10), 0);
    assert!(!can_pick_up(PICKUP_DELAY_NANOS - 1, 0));
    assert!(can_pick_up(PICKUP_DELAY_NANOS + 5, 5));
    assert!(!can_pick_up(0, 100));
    assert!(!is_expired(LIFETIME_NANOS - 1, 0));
    assert!(is_expired(LIFETIME_NANOS, 0));
}

#[test]
fn animation_advances_and_wraps() {
    let frames = SpriteAnimationIndices::new(2, 4);
    assert_eq!(next_frame(0, frames, false), 2);
    assert_eq!(next_frame(0, frames, true), 3);
    assert_eq!(next_frame(3, frames, true), 4);
    assert_eq!(next_frame(4, frames, true), 2);
    assert_eq!(next_frame(4, frames, false), 4);
}
