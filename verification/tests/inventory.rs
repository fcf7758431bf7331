use hollow::dropped_item::pick_up;
use hollow::inventory::input::{
    click_slot, end_drag, escape_action, is_selected_slot, mark_visited, press_number_key,
    pressed_hotbar_key, return_cursor_stack, scrolled_hotbar, shows_count, start_drag, toggled,
    EscapeAction, InventoryState, PointerButton,
};
use hollow::inventory::model::{
    DragMode, ItemKind, ItemStack, PlayerInventory, BLOCK_STACK_SIZE, HOTBAR_SIZE,
    INVENTORY_SIZE,
};
use hollow::voxel::data::VoxelKind;

fn block(kind: VoxelKind) -> ItemKind {
    ItemKind::Block(kind)
}

fn stack(kind: VoxelKind, count: u8) -> ItemStack {
    ItemStack::new(block(kind), count)
}

/// The inventory with every slot empty.
fn empty_inventory() -> PlayerInventory {
    let mut inventory = PlayerInventory::default();
    assert!(inventory.consume_selected(2));
    inventory
}

fn total(inventory: &PlayerInventory, cursor: Option<ItemStack>, kind: VoxelKind) -> u32 {
    let mut sum: u32 = 0;
    for index in 0..INVENTORY_SIZE {
        if let Some(s) = inventory.slot(index) {
            if s.item() == block(kind) {
                sum += s.count() as u32;
            }
        }
    }
    if let Some(s) = cursor {
        if s.item() == block(kind) {
            sum += s.count() as u32;
        }
    }
    sum
}

#[test]
fn default_inventory_holds_two_dirt_in_the_first_slot() {
    let inventory = PlayerInventory::default();
    assert_eq!(inventory.len(), INVENTORY_SIZE);
    assert_eq!(inventory.slot(0), Some(stack(VoxelKind::Dirt, 2)));
    assert_eq!(inventory.slot(1), None);
    assert_eq!(inventory.slot(INVENTORY_SIZE), None);
    assert_eq!(inventory.selected_hotbar(), 0);
    assert_eq!(inventory.selected_stack(), Some(stack(VoxelKind::Dirt, 2)));
}

#[test]
fn stacks_report_their_contents() {
    let s = stack(VoxelKind::Stone, 5);
    assert_eq!(s.item(), block(VoxelKind::Stone));
    assert_eq!(s.count(), 5);
    assert_eq!(s.max_stack_size(), BLOCK_STACK_SIZE);
    assert!(!block(VoxelKind::Air).is_valid());
    assert!(!block(VoxelKind::Water).is_valid());
    assert!(block(VoxelKind::Leaves).is_valid());
}

#[test]
fn insert_tops_up_matching_stacks_before_using_an_empty_slot() {
    let mut inventory = empty_inventory();
    assert_eq!(inventory.insert(stack(VoxelKind::Stone, 60)), None);
    assert_eq!(inventory.insert(stack(VoxelKind::Sand, 3)), None);
    assert_eq!(inventory.insert(stack(VoxelKind::Stone, 10)), None);
    assert_eq!(inventory.slot(0), Some(stack(VoxelKind::Stone, 64)));
    assert_eq!(inventory.slot(1), Some(stack(VoxelKind::Sand, 3)));
    assert_eq!(inventory.slot(2), Some(stack(VoxelKind::Stone, 6)));
}

#[test]
fn a_full_inventory_returns_what_does_not_fit() {
    let mut inventory = empty_inventory();
    for _ in 0..INVENTORY_SIZE {
        assert_eq!(inventory.insert(stack(VoxelKind::Stone, 63)), None);
    }
    // Matching stacks are topped up first: 35 full slots and 28 in the last.
    assert_eq!(inventory.slot(INVENTORY_SIZE - 1), Some(stack(VoxelKind::Stone, 28)));
    assert_eq!(
        inventory.insert(stack(VoxelKind::Stone, 40)),
        Some(stack(VoxelKind::Stone, 4))
    );
    assert_eq!(
        inventory.insert(stack(VoxelKind::Dirt, 1)),
        Some(stack(VoxelKind::Dirt, 1))
    );
    assert_eq!(total(&inventory, None, VoxelKind::Stone), 64 * INVENTORY_SIZE as u32);
}

#[test]
fn picking_up_a_drop_inserts_it() {
    let mut inventory = PlayerInventory::default();
    assert_eq!(pick_up(&mut inventory, stack(VoxelKind::Dirt, 5)), None);
    assert_eq!(inventory.slot(0), Some(stack(VoxelKind::Dirt, 7)));
}

#[test]
fn left_click_picks_up_places_merges_and_swaps() {
    let mut inventory = PlayerInventory::default();
    let mut cursor = None;

    inventory.left_click(0, &mut cursor);
    assert_eq!(cursor, Some(stack(VoxelKind::Dirt, 2)));
    assert_eq!(inventory.slot(0), None);

    inventory.left_click(3, &mut cursor);
    assert_eq!(cursor, None);
    assert_eq!(inventory.slot(3), Some(stack(VoxelKind::Dirt, 2)));

    // Merge up to the stack size, the rest stays on the cursor.
    assert_eq!(inventory.insert(stack(VoxelKind::Sand, 60)), None);
    let mut cursor = Some(stack(VoxelKind::Sand, 10));
    inventory.left_click(0, &mut cursor);
    assert_eq!(inventory.slot(0), Some(stack(VoxelKind::Sand, 64)));
    assert_eq!(cursor, Some(stack(VoxelKind::Sand, 6)));

    // Different kinds swap.
    inventory.left_click(3, &mut cursor);
    assert_eq!(inventory.slot(3), Some(stack(VoxelKind::Sand, 6)));
    assert_eq!(cursor, Some(stack(VoxelKind::Dirt, 2)));

    // Clicks past the end change nothing.
    inventory.left_click(INVENTORY_SIZE, &mut cursor);
    assert_eq!(cursor, Some(stack(VoxelKind::Dirt, 2)));
}

#[test]
fn right_click_takes_half_or_drops_one() {
    let mut inventory = empty_inventory();
    assert_eq!(inventory.insert(stack(VoxelKind::Stone, 5)), None);
    let mut cursor = None;

    inventory.right_click(0, &mut cursor);
    assert_eq!(cursor, Some(stack(VoxelKind::Stone, 3)));
    assert_eq!(inventory.slot(0), Some(stack(VoxelKind::Stone, 2)));

    inventory.right_click(1, &mut cursor);
    assert_eq!(inventory.slot(1), Some(stack(VoxelKind::Stone, 1)));
    assert_eq!(cursor, Some(stack(VoxelKind::Stone, 2)));

    inventory.right_click(0, &mut cursor);
    assert_eq!(inventory.slot(0), Some(stack(VoxelKind::Stone, 3)));
    assert_eq!(cursor, Some(stack(VoxelKind::Stone, 1)));

    inventory.right_click(1, &mut cursor);
    assert_eq!(inventory.slot(1), Some(stack(VoxelKind::Stone, 2)));
    assert_eq!(cursor, None);

    // A single item is picked up whole.
    assert_eq!(inventory.insert(stack(VoxelKind::Sand, 1)), None);
    inventory.right_click(2, &mut cursor);
    assert_eq!(cursor, Some(stack(VoxelKind::Sand, 1)));
    assert_eq!(inventory.slot(2), None);

    // Dropping onto another kind keeps both as they are.
    inventory.right_click(0, &mut cursor);
    assert_eq!(cursor, Some(stack(VoxelKind::Sand, 1)));
    assert_eq!(inventory.slot(0), Some(stack(VoxelKind::Stone, 3)));
}

#[test]
fn consume_selected_uses_up_the_hotbar_stack() {
    let mut inventory = PlayerInventory::default();
    assert!(inventory.consume_selected(0));
    assert!(!inventory.consume_selected(3));
    assert_eq!(inventory.slot(0), Some(stack(VoxelKind::Dirt, 2)));
    assert!(inventory.consume_selected(1));
    assert_eq!(inventory.slot(0), Some(stack(VoxelKind::Dirt, 1)));
    assert!(inventory.consume_selected(1));
    assert_eq!(inventory.slot(0), None);
    assert!(!inventory.consume_selected(1));

    inventory.set_selected_hotbar(42);
    assert_eq!(inventory.selected_hotbar(), HOTBAR_SIZE - 1);
    assert!(!inventory.consume_selected(1));
}

#[test]
fn quick_move_crosses_between_hotbar_and_main_inventory() {
    let mut inventory = PlayerInventory::default();
    inventory.quick_move(0);
    assert_eq!(inventory.slot(0), None);
    assert_eq!(inventory.slot(HOTBAR_SIZE), Some(stack(VoxelKind::Dirt, 2)));

    inventory.quick_move(HOTBAR_SIZE);
    assert_eq!(inventory.slot(HOTBAR_SIZE), None);
    assert_eq!(inventory.slot(0), Some(stack(VoxelKind::Dirt, 2)));

    // Empty slots and indices past the end change nothing.
    inventory.quick_move(5);
    inventory.quick_move(INVENTORY_SIZE + 3);
    assert_eq!(inventory.slot(0), Some(stack(VoxelKind::Dirt, 2)));
}

#[test]
fn quick_move_leaves_what_does_not_fit() {
    let mut inventory = empty_inventory();
    for index in 0..HOTBAR_SIZE {
        assert_eq!(inventory.insert(stack(VoxelKind::Stone, 64)), None);
        assert!(inventory.slot(index).is_some());
    }
    assert_eq!(inventory.insert(stack(VoxelKind::Stone, 62)), None);
    // The hotbar is full of stone; the main stack of 62 stays put.
    inventory.quick_move(HOTBAR_SIZE);
    assert_eq!(inventory.slot(HOTBAR_SIZE), Some(stack(VoxelKind::Stone, 62)));
    assert_eq!(inventory.slot(0), Some(stack(VoxelKind::Stone, 64)));
}

#[test]
fn double_click_collects_matching_items() {
    let mut inventory = empty_inventory();
    let mut cursor = Some(stack(VoxelKind::Sand, 30));
    inventory.left_click(5, &mut cursor);
    let mut cursor = Some(stack(VoxelKind::Sand, 40));
    inventory.left_click(0, &mut cursor);
    assert_eq!(inventory.insert(stack(VoxelKind::Dirt, 1)), None);
    assert_eq!(inventory.slot(0), Some(stack(VoxelKind::Sand, 40)));
    assert_eq!(inventory.slot(5), Some(stack(VoxelKind::Sand, 30)));

    let mut cursor = Some(stack(VoxelKind::Sand, 10));
    inventory.collect_matching(&mut cursor);
    assert_eq!(cursor, Some(stack(VoxelKind::Sand, 64)));
    assert_eq!(inventory.slot(0), None);
    assert_eq!(inventory.slot(5), Some(stack(VoxelKind::Sand, 16)));
    assert_eq!(inventory.slot(1), Some(stack(VoxelKind::Dirt, 1)));
}

#[test]
fn swap_slots_ignores_bad_indices() {
    let mut inventory = PlayerInventory::default();
    inventory.swap_slots(0, INVENTORY_SIZE);
    inventory.swap_slots(0, 0);
    assert_eq!(inventory.slot(0), Some(stack(VoxelKind::Dirt, 2)));
    inventory.swap_slots(0, 20);
    assert_eq!(inventory.slot(20), Some(stack(VoxelKind::Dirt, 2)));
    assert_eq!(inventory.slot(0), None);
}

#[test]
fn even_drag_splits_the_held_stack() {
    let mut inventory = empty_inventory();
    assert_eq!(inventory.insert(stack(VoxelKind::Dirt, 63)), None);
    assert_eq!(inventory.insert(stack(VoxelKind::Sand, 1)), None);
    let mut cursor = Some(stack(VoxelKind::Dirt, 10));
    let mut visited = [false; INVENTORY_SIZE];
    for index in [0, 1, 2, 3, 4] {
        mark_visited(&mut visited, index);
    }
    // Accepting slots: 0 (one room left), 2, 3 and 4; slot 1 holds sand.
    end_drag(&mut inventory, &mut cursor, &visited, DragMode::Even);
    assert_eq!(inventory.slot(0), Some(stack(VoxelKind::Dirt, 64)));
    assert_eq!(inventory.slot(1), Some(stack(VoxelKind::Sand, 1)));
    assert_eq!(inventory.slot(2), Some(stack(VoxelKind::Dirt, 2)));
    assert_eq!(inventory.slot(3), Some(stack(VoxelKind::Dirt, 2)));
    assert_eq!(inventory.slot(4), Some(stack(VoxelKind::Dirt, 2)));
    assert_eq!(cursor, Some(stack(VoxelKind::Dirt, 3)));
}

#[test]
fn even_drag_with_too_few_items_changes_nothing() {
    let mut inventory = empty_inventory();
    let mut cursor = Some(stack(VoxelKind::Dirt, 2));
    let mut visited = [false; INVENTORY_SIZE];
    for index in [0, 1, 2] {
        mark_visited(&mut visited, index);
    }
    end_drag(&mut inventory, &mut cursor, &visited, DragMode::Even);
    assert_eq!(cursor, Some(stack(VoxelKind::Dirt, 2)));
    assert_eq!(inventory.slot(0), None);
}

#[test]
fn one_each_drag_drops_single_items_while_they_last() {
    let mut inventory = empty_inventory();
    assert_eq!(inventory.insert(stack(VoxelKind::Stone, 1)), None);
    let mut cursor = Some(stack(VoxelKind::Dirt, 2));
    let mut visited = [false; INVENTORY_SIZE];
    for index in [0, 1, 2, 3] {
        mark_visited(&mut visited, index);
    }
    end_drag(&mut inventory, &mut cursor, &visited, DragMode::OneEach);
    assert_eq!(inventory.slot(0), Some(stack(VoxelKind::Stone, 1)));
    assert_eq!(inventory.slot(1), Some(stack(VoxelKind::Dirt, 1)));
    assert_eq!(inventory.slot(2), Some(stack(VoxelKind::Dirt, 1)));
    assert_eq!(inventory.slot(3), None);
    assert_eq!(cursor, None);
}

#[test]
fn drags_start_only_with_items_in_hand() {
    let mut inventory = PlayerInventory::default();
    let mut cursor = None;
    assert!(start_drag(&mut inventory, &mut cursor, 4, PointerButton::Primary).is_none());
    assert!(start_drag(&mut inventory, &mut cursor, 0, PointerButton::Middle).is_none());

    // An empty hand picks up first; the start slot is not visited then.
    let drag = start_drag(&mut inventory, &mut cursor, 0, PointerButton::Primary);
    let (mode, visited) = drag.unwrap();
    assert_eq!(mode, DragMode::Even);
    assert!(visited.iter().all(|v| !v));
    assert_eq!(cursor, Some(stack(VoxelKind::Dirt, 2)));

    // With items in hand the start slot counts.
    let (mode, visited) =
        start_drag(&mut inventory, &mut cursor, 7, PointerButton::Secondary).unwrap();
    assert_eq!(mode, DragMode::OneEach);
    assert!(visited[7]);
    assert_eq!(visited.iter().filter(|v| **v).count(), 1);
}

#[test]
fn clicks_dispatch_by_button_and_modifiers() {
    let mut inventory = PlayerInventory::default();
    let mut cursor = None;

    // Shift-click with an empty hand quick-moves.
    click_slot(&mut inventory, &mut cursor, 0, PointerButton::Primary, true, 1, false);
    assert_eq!(inventory.slot(HOTBAR_SIZE), Some(stack(VoxelKind::Dirt, 2)));

    // Clicks during a drag and middle clicks do nothing.
    click_slot(&mut inventory, &mut cursor, HOTBAR_SIZE, PointerButton::Primary, false, 1, true);
    click_slot(&mut inventory, &mut cursor, HOTBAR_SIZE, PointerButton::Middle, false, 1, false);
    assert_eq!(cursor, None);

    // A plain primary click picks up; a secondary click drops one.
    click_slot(&mut inventory, &mut cursor, HOTBAR_SIZE, PointerButton::Primary, false, 1, false);
    assert_eq!(cursor, Some(stack(VoxelKind::Dirt, 2)));
    click_slot(&mut inventory, &mut cursor, 3, PointerButton::Secondary, false, 1, false);
    assert_eq!(inventory.slot(3), Some(stack(VoxelKind::Dirt, 1)));
    assert_eq!(cursor, Some(stack(VoxelKind::Dirt, 1)));

    // A double click with items in hand collects.
    click_slot(&mut inventory, &mut cursor, 0, PointerButton::Primary, false, 2, false);
    assert_eq!(cursor, Some(stack(VoxelKind::Dirt, 2)));
    assert_eq!(inventory.slot(3), None);
    assert_eq!(total(&inventory, cursor, VoxelKind::Dirt), 2);
}

#[test]
fn closing_returns_the_held_stack() {
    let mut inventory = PlayerInventory::default();
    let mut cursor = Some(stack(VoxelKind::Dirt, 3));
    return_cursor_stack(&mut inventory, &mut cursor);
    assert_eq!(cursor, None);
    assert_eq!(inventory.slot(0), Some(stack(VoxelKind::Dirt, 5)));

    let mut cursor = None;
    return_cursor_stack(&mut inventory, &mut cursor);
    assert_eq!(cursor, None);
    assert_eq!(inventory.slot(0), Some(stack(VoxelKind::Dirt, 5)));
}

#[test]
fn hotbar_keys_and_scrolling() {
    let mut pressed = [false; HOTBAR_SIZE];
    assert_eq!(pressed_hotbar_key(&pressed), None);
    pressed[6] = true;
    pressed[2] = true;
    assert_eq!(pressed_hotbar_key(&pressed), Some(2));

    assert_eq!(scrolled_hotbar(0, true), HOTBAR_SIZE - 1);
    assert_eq!(scrolled_hotbar(HOTBAR_SIZE - 1, false), 0);
    assert_eq!(scrolled_hotbar(4, false), 5);

    let mut inventory = PlayerInventory::default();
    press_number_key(&mut inventory, InventoryState::Closed, None, 4);
    assert_eq!(inventory.selected_hotbar(), 4);
    assert!(is_selected_slot(&inventory, 4));
    assert!(!is_selected_slot(&inventory, 13));

    // With the inventory open the key swaps the hovered slot with its hotbar slot.
    press_number_key(&mut inventory, InventoryState::Open, Some(0), 6);
    assert_eq!(inventory.slot(6), Some(stack(VoxelKind::Dirt, 2)));
    assert_eq!(inventory.slot(0), None);
    assert_eq!(inventory.selected_hotbar(), 4);
}

#[test]
fn inventory_screen_states() {
    assert_eq!(toggled(InventoryState::Closed), InventoryState::Open);
    assert_eq!(toggled(InventoryState::Open), InventoryState::Closed);
    assert_eq!(escape_action(InventoryState::Open), EscapeAction::CloseInventory);
    assert_eq!(escape_action(InventoryState::Closed), EscapeAction::BackToMenu);
    assert_eq!(InventoryState::default(), InventoryState::Closed);
    assert!(shows_count(Some(stack(VoxelKind::Dirt, 2))));
    assert!(!shows_count(Some(stack(VoxelKind::Dirt, 1))));
    assert!(!shows_count(None));
}

#[test]
fn swapping_twice_and_clicking_twice_restore_the_inventory() {
    let mut inventory = PlayerInventory::default();
    assert_eq!(inventory.insert(stack(VoxelKind::Sand, 3)), None);
    inventory.swap_slots(0, 7);
    inventory.swap_slots(0, 7);
    assert_eq!(inventory.slot(0), Some(stack(VoxelKind::Dirt, 2)));
    assert_eq!(inventory.slot(7), None);

    let mut cursor = Some(stack(VoxelKind::Stone, 4));
    inventory.left_click(1, &mut cursor);
    assert_eq!(inventory.slot(1), Some(stack(VoxelKind::Stone, 4)));
    inventory.left_click(1, &mut cursor);
    assert_eq!(inventory.slot(1), Some(stack(VoxelKind::Sand, 3)));
    assert_eq!(cursor, Some(stack(VoxelKind::Stone, 4)));
}
