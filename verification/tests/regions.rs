use hollow::math::IVec2;
use hollow::voxel::regions::{
    chunk_offset_in_region, region_of, sort_by_row, RenderRegions, REGION_SIZE, SETTLE_FRAMES,
};

#[test]
fn region_coordinates_handle_negative_chunks() {
    assert_eq!(region_of(IVec2::new(0, 0)), IVec2::new(0, 0));
    assert_eq!(region_of(IVec2::new(3, 3)), IVec2::new(0, 0));
    assert_eq!(region_of(IVec2::new(4, 4)), IVec2::new(1, 1));
    assert_eq!(region_of(IVec2::new(-1, -1)), IVec2::new(-1, -1));
    assert_eq!(region_of(IVec2::new(-4, -4)), IVec2::new(-1, -1));
    assert_eq!(region_of(IVec2::new(-5, -5)), IVec2::new(-2, -2));
}

#[test]
fn removals_drop_empty_region_storage() {
    let mut regions: RenderRegions<u32> = RenderRegions::new();
    regions.insert(IVec2::new(0, 0), 7);
    regions.remove(IVec2::new(0, 0));

    assert_eq!(regions.region_count(), 0);
    assert_eq!(regions.dirty_age(IVec2::new(0, 0)), Some(SETTLE_FRAMES));
}

#[test]
fn sixteen_chunks_share_one_render_region_and_edits_skip_debounce() {
    let mut regions: RenderRegions<u32> = RenderRegions::new();
    for z in 0..REGION_SIZE {
        for x in 0..REGION_SIZE {
            regions.insert(IVec2::new(x, z), 1);
        }
    }

    assert_eq!(regions.region_count(), 1);
    assert_eq!(regions.chunk_count(IVec2::new(0, 0)), 16);
    assert_eq!(regions.dirty_age(IVec2::new(0, 0)), Some(0));

    regions.insert(IVec2::new(2, 2), 2);
    assert_eq!(regions.dirty_age(IVec2::new(0, 0)), Some(SETTLE_FRAMES));
}

#[test]
fn replaced_meshes_are_kept_and_readable() {
    let mut regions: RenderRegions<u32> = RenderRegions::new();
    regions.insert(IVec2::new(5, -3), 10);
    assert_eq!(regions.piece(IVec2::new(1, -1), IVec2::new(5, -3)), Some(&10));
    regions.insert(IVec2::new(5, -3), 11);
    assert_eq!(regions.piece(IVec2::new(1, -1), IVec2::new(5, -3)), Some(&11));
    assert_eq!(regions.piece(IVec2::new(0, 0), IVec2::new(5, -3)), None);
    assert_eq!(regions.chunk_count(IVec2::new(1, -1)), 1);
}

#[test]
fn fresh_regions_become_ready_after_one_step_and_edits_wait_to_settle() {
    let mut regions: RenderRegions<u32> = RenderRegions::new();
    assert!(regions.is_settled());
    regions.insert(IVec2::new(0, 0), 1);
    regions.insert(IVec2::new(8, 0), 1);
    assert_eq!(regions.dirty_len(), 2);

    // Fresh regions have age 0 and wait until they reach the settle delay.
    for _ in 0..(SETTLE_FRAMES - 1) {
        assert!(regions.take_ready(8).is_empty());
    }
    let ready = regions.take_ready(1);
    assert_eq!(ready, vec![IVec2::new(0, 0)]);
    assert_eq!(regions.dirty_len(), 1);
    let ready = regions.take_ready(1);
    assert_eq!(ready, vec![IVec2::new(2, 0)]);
    assert!(regions.is_settled());

    // A replacement restarts the delay at SETTLE_FRAMES: ready at the next step.
    regions.insert(IVec2::new(0, 0), 2);
    assert_eq!(regions.take_ready(4), vec![IVec2::new(0, 0)]);
}

#[test]
fn region_chunks_come_sorted_by_row_then_column() {
    let mut regions: RenderRegions<u32> = RenderRegions::new();
    regions.insert(IVec2::new(3, 1), 1);
    regions.insert(IVec2::new(0, 2), 1);
    regions.insert(IVec2::new(1, 1), 1);
    regions.insert(IVec2::new(2, 0), 1);
    assert_eq!(
        regions.region_chunks(IVec2::new(0, 0)),
        Some(vec![
            IVec2::new(2, 0),
            IVec2::new(1, 1),
            IVec2::new(3, 1),
            IVec2::new(0, 2)
        ])
    );
    assert_eq!(regions.region_chunks(IVec2::new(1, 0)), None);
}

#[test]
fn clearing_drops_meshes_and_waiting_regions() {
    let mut regions: RenderRegions<u32> = RenderRegions::new();
    regions.insert(IVec2::new(0, 0), 1);
    regions.insert(IVec2::new(-9, 4), 1);
    regions.clear();
    assert_eq!(regions.region_count(), 0);
    assert!(regions.is_settled());
}

#[test]
fn sort_by_row_orders_rows_then_columns() {
    let sorted = sort_by_row(vec![
        IVec2::new(1, 1),
        IVec2::new(-2, 3),
        IVec2::new(0, 1),
        IVec2::new(5, -1),
    ]);
    assert_eq!(
        sorted,
        vec![
            IVec2::new(5, -1),
            IVec2::new(0, 1),
            IVec2::new(1, 1),
            IVec2::new(-2, 3)
        ]
    );
}

#[test]
fn chunk_offset_in_region_is_relative_origin() {
    assert_eq!(
        chunk_offset_in_region(IVec2::new(-1, 0), IVec2::new(-3, 2), 16),
        IVec2::new(16, 32)
    );
    assert_eq!(
        chunk_offset_in_region(IVec2::new(0, 0), IVec2::new(0, 0), 16),
        IVec2::new(0, 0)
    );
}

#[test]
fn filing_and_dropping_a_chunk_leaves_other_pieces_alone() {
    let mut regions: RenderRegions<u32> = RenderRegions::new();
    regions.insert(IVec2::new(1, 1), 3);
    regions.insert(IVec2::new(2, 1), 4);
    regions.remove(IVec2::new(2, 1));
    assert_eq!(regions.region_count(), 1);
    assert_eq!(regions.chunk_count(IVec2::new(0, 0)), 1);
    assert_eq!(regions.piece(IVec2::new(0, 0), IVec2::new(1, 1)), Some(&3));
    assert_eq!(regions.piece(IVec2::new(0, 0), IVec2::new(2, 1)), None);
    assert_eq!(regions.dirty_age(IVec2::new(0, 0)), Some(SETTLE_FRAMES));
}
