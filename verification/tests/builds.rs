use hollow::voxel::builds::{spawn_build, BuildOutput, RenderWorld};
use hollow::voxel::rebuild::ColliderPlan;

fn build(water: bool, collider: ColliderPlan) -> BuildOutput {
    BuildOutput { water, collider }
}

#[test]
fn water_child_is_created_removed_and_despawned_with_its_chunk() {
    let mut world = RenderWorld::new();
    let parent = spawn_build(&mut world, true);
    world.finish_builds();
    let first_child = world.water_child(parent).unwrap();
    assert_eq!(world.child(first_child).unwrap().parent, parent);
    assert!(world.child(first_child).unwrap().alive);

    world.start_build(parent, build(false, ColliderPlan::Keep));
    world.finish_builds();
    assert_eq!(world.water_child(parent), None);
    assert!(!world.child(first_child).unwrap().alive);

    world.start_build(parent, build(true, ColliderPlan::Keep));
    world.finish_builds();
    let second_child = world.water_child(parent).unwrap();
    assert_ne!(second_child, first_child);
    world.despawn(parent);
    assert!(!world.child(second_child).unwrap().alive);
    assert!(!world.chunk(parent).unwrap().alive);
}

#[test]
fn finished_builds_attach_meshes_and_apply_collider_plans() {
    let mut world = RenderWorld::new();
    let a = spawn_build(&mut world, false);
    let b = spawn_build(&mut world, true);
    world.finish_builds();
    let chunk = world.chunk(a).unwrap();
    assert!(chunk.has_mesh);
    assert!(!chunk.has_collider);
    assert_eq!(chunk.build, None);
    assert_eq!(chunk.water, None);

    world.start_build(a, build(false, ColliderPlan::Replace));
    world.finish_builds();
    assert!(world.chunk(a).unwrap().has_collider);

    // A water update keeps the existing child.
    let child = world.water_child(b).unwrap();
    world.start_build(b, build(true, ColliderPlan::Remove));
    world.finish_builds();
    assert_eq!(world.water_child(b), Some(child));
    assert!(!world.chunk(b).unwrap().has_collider);

    world.start_build(a, build(false, ColliderPlan::Remove));
    world.finish_builds();
    assert!(!world.chunk(a).unwrap().has_collider);
    assert_eq!(world.chunk(7), None);
    assert_eq!(world.child(7), None);
}
