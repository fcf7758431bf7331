use vstd::prelude::*;

use crate::inventory::model::{
    DragMode, ItemStack, PlayerInventory, HOTBAR_SIZE, INVENTORY_SIZE, slot_valid, total_with_cursor,
    left_click_result, right_click_result, drag_result, ItemKind, quick_move_result, collect_from,
    placed, swapped,
};

verus! {

/// Whether the inventory screen is open while playing.
#[derive(Clone, Copy, Debug, PartialEq, Eq, Structural)]
pub enum InventoryState {
    Closed,
    Open,
}

impl Default for InventoryState {
    fn default() -> (state: Self)
        ensures
            state == InventoryState::Closed,
    {
        InventoryState::Closed
    }
}

/// The inventory key flips between open and closed.
pub fn toggled(state: InventoryState) -> (next: InventoryState)
    ensures
        next == match state {
            InventoryState::Closed => InventoryState::Open,
            InventoryState::Open => InventoryState::Closed,
        },
{
    match state {
        InventoryState::Closed => InventoryState::Open,
        InventoryState::Open => InventoryState::Closed,
    }
}

/// What Escape does while playing.
#[derive(Clone, Copy, Debug, PartialEq, Eq, Structural)]
pub enum EscapeAction {
    CloseInventory,
    BackToMenu,
}

pub fn escape_action(state: InventoryState) -> (action: EscapeAction)
    ensures
        action == if state == InventoryState::Open {
            EscapeAction::CloseInventory
        } else {
            EscapeAction::BackToMenu
        },
{
    match state {
        InventoryState::Open => EscapeAction::CloseInventory,
        InventoryState::Closed => EscapeAction::BackToMenu,
    }
}

/// The first of the nine number keys pressed this frame.
pub fn pressed_hotbar_key(pressed: &[bool; HOTBAR_SIZE]) -> (key: Option<usize>)
    ensures
        match key {
            Some(i) => i < HOTBAR_SIZE && pressed@[i as int] && forall|j: int|
                0 <= j < i ==> !pressed@[j],
            None => forall|j: int| 0 <= j < HOTBAR_SIZE ==> !pressed@[j],
        },
{
    let mut i: usize = 0;
    while i < HOTBAR_SIZE
        invariant
            0 <= i <= HOTBAR_SIZE,
            forall|j: int| 0 <= j < i ==> !pressed@[j],
        decreases HOTBAR_SIZE - i,
    {
        if pressed[i] {
            return Some(i);
        }
        i = i + 1;
    }
    None
}

/// The hotbar slot after one scroll step: up moves left, down moves right,
/// both wrapping around.
pub fn scrolled_hotbar(current: usize, up: bool) -> (next: usize)
    requires
        current < HOTBAR_SIZE,
    ensures
        next < HOTBAR_SIZE,
        next == if up {
            (current + HOTBAR_SIZE - 1) % (HOTBAR_SIZE as int)
        } else {
            (current + 1) % (HOTBAR_SIZE as int)
        },
{
    if up {
        (current + HOTBAR_SIZE - 1) % HOTBAR_SIZE
    } else {
        (current + 1) % HOTBAR_SIZE
    }
}

/// A number key: with the inventory closed it selects that hotbar slot; with
/// it open it swaps the hovered slot with that hotbar slot.
pub fn press_number_key(
    inventory: &mut PlayerInventory,
    state: InventoryState,
    hovered: Option<usize>,
    key: usize,
)
    requires
        old(inventory).wf(),
        key < HOTBAR_SIZE,
    ensures
        final(inventory).wf(),
        state == InventoryState::Closed ==> final(inventory).selected() == key && final(inventory).slots() == old(inventory).slots(),
        state == InventoryState::Open ==> final(inventory).selected() == old(inventory).selected()
            && final(inventory).slots() == match hovered {
            None => old(inventory).slots(),
            Some(slot) => swapped(old(inventory).slots(), slot as int, key as int),
        },
{
    match state {
        InventoryState::Closed => inventory.set_selected_hotbar(key),
        InventoryState::Open => match hovered {
            Some(slot) => inventory.swap_slots(slot, key),
            None => {},
        },
    }
}

/// Pointer buttons.
#[derive(Clone, Copy, Debug, PartialEq, Eq, Structural)]
pub enum PointerButton {
    Primary,
    Secondary,
    Middle,
}

/// A click on inventory slot `index`: primary with shift and an empty cursor
/// quick-moves the slot; a primary double click with a held stack collects
/// matching items; other primary clicks are left clicks; secondary clicks are
/// right clicks; middle clicks and clicks during a drag do nothing.
pub fn click_slot(
    inventory: &mut PlayerInventory,
    cursor: &mut Option<ItemStack>,
    index: usize,
    button: PointerButton,
    shift: bool,
    click_count: u32,
    dragging: bool,
)
    requires
        old(inventory).wf(),
        slot_valid(*old(cursor)),
    ensures
        final(inventory).wf(),
        slot_valid(*final(cursor)),
        final(inventory).selected() == old(inventory).selected(),
        forall|k: ItemKind|
            #![trigger total_with_cursor(final(inventory).slots(), *final(cursor), k)]
            total_with_cursor(final(inventory).slots(), *final(cursor), k) == total_with_cursor(
                old(inventory).slots(),
                *old(cursor),
                k,
            ),
        (dragging || button == PointerButton::Middle) ==> final(inventory).slots() == old(inventory).slots() && *final(cursor) == *old(cursor),
        (!dragging && button == PointerButton::Primary && shift && old(cursor).is_none()) ==> final(inventory).slots()
            == quick_move_result(old(inventory).slots(), index as int) && final(cursor).is_none(),
        (!dragging && button == PointerButton::Primary && !shift && click_count >= 2) ==> match *old(cursor) {
            Some(hand) => {
                let (after, total) = collect_from(
                    old(inventory).slots(),
                    0,
                    hand.spec_item(),
                    hand.spec_count() as int,
                );
                final(inventory).slots() == after && *final(cursor) == Some(
                    ItemStack::of(hand.spec_item(), total),
                )
            },
            None => true,
        },
        (!dragging && button == PointerButton::Primary && shift && click_count >= 2 && old(cursor).is_some()) ==> ({
            let hand = old(cursor).unwrap();
            let (after, total) = collect_from(
                old(inventory).slots(),
                0,
                hand.spec_item(),
                hand.spec_count() as int,
            );
            final(inventory).slots() == after && *final(cursor) == Some(
                ItemStack::of(hand.spec_item(), total),
            )
        }),
        (!dragging && index >= INVENTORY_SIZE && (button == PointerButton::Secondary || (
        button == PointerButton::Primary && !(shift && old(cursor).is_none()) && !(click_count >= 2
            && old(cursor).is_some())))) ==> final(inventory).slots() == old(inventory).slots()
            && *final(cursor) == *old(cursor),
        (!dragging && button == PointerButton::Secondary && index < INVENTORY_SIZE) ==> ({
            let (slot, held) = right_click_result(old(inventory).slots()[index as int], *old(cursor));
            final(inventory).slots() == old(inventory).slots().update(index as int, slot)
                && *final(cursor) == held
        }),
        (!dragging && button == PointerButton::Primary && !(shift && old(cursor).is_none()) && !(
        click_count >= 2 && old(cursor).is_some()) && index < INVENTORY_SIZE) ==> ({
            let (slot, held) = left_click_result(old(inventory).slots()[index as int], *old(cursor));
            final(inventory).slots() == old(inventory).slots().update(index as int, slot)
                && *final(cursor) == held
        }),
{
    if dragging {
        return;
    }
    match button {
        PointerButton::Primary => {
            if shift && cursor.is_none() {
                inventory.quick_move(index);
                return;
            }
            if click_count >= 2 && cursor.is_some() {
                inventory.collect_matching(cursor);
                return;
            }
            inventory.left_click(index, cursor);
        },
        PointerButton::Secondary => {
            inventory.right_click(index, cursor);
        },
        PointerButton::Middle => {},
    }
}

/// Starting a drag on slot `index`: primary drags split evenly, secondary ones
/// drop one item per slot. With an empty cursor the press first picks up from
/// the slot as a click would. A drag only starts when the cursor then holds
/// items; the start slot counts as visited only when the cursor held items
/// before.
pub fn start_drag(
    inventory: &mut PlayerInventory,
    cursor: &mut Option<ItemStack>,
    index: usize,
    button: PointerButton,
) -> (drag: Option<(DragMode, [bool; INVENTORY_SIZE])>)
    requires
        old(inventory).wf(),
        slot_valid(*old(cursor)),
        index < INVENTORY_SIZE,
    ensures
        final(inventory).wf(),
        slot_valid(*final(cursor)),
        final(inventory).selected() == old(inventory).selected(),
        forall|k: ItemKind|
            #![trigger total_with_cursor(final(inventory).slots(), *final(cursor), k)]
            total_with_cursor(final(inventory).slots(), *final(cursor), k) == total_with_cursor(
                old(inventory).slots(),
                *old(cursor),
                k,
            ),
        button == PointerButton::Middle ==> drag is None && final(inventory).slots() == old(inventory).slots() && *final(cursor) == *old(cursor),
        old(cursor).is_some() ==> final(inventory).slots() == old(inventory).slots() && *final(cursor) == *old(cursor),
        (old(cursor).is_none() && button == PointerButton::Primary) ==> ({
            let (slot, held) = left_click_result(old(inventory).slots()[index as int], None);
            final(inventory).slots() == old(inventory).slots().update(index as int, slot)
                && *final(cursor) == held
        }),
        (old(cursor).is_none() && button == PointerButton::Secondary) ==> ({
            let (slot, held) = right_click_result(old(inventory).slots()[index as int], None);
            final(inventory).slots() == old(inventory).slots().update(index as int, slot)
                && *final(cursor) == held
        }),
        match drag {
            None => button == PointerButton::Middle || final(cursor).is_none(),
            Some((mode, visited)) => {
                &&& button != PointerButton::Middle
                &&& final(cursor).is_some()
                &&& mode == if button == PointerButton::Primary {
                    DragMode::Even
                } else {
                    DragMode::OneEach
                }
                &&& forall|j: int|
                    0 <= j < INVENTORY_SIZE ==> visited@[j] == (j == index && old(cursor).is_some())
            },
        },
{
    let had_stack = cursor.is_some();
    let mode = match button {
        PointerButton::Primary => DragMode::Even,
        PointerButton::Secondary => DragMode::OneEach,
        PointerButton::Middle => return None,
    };
    if !had_stack {
        match button {
            PointerButton::Primary => inventory.left_click(index, cursor),
            _ => inventory.right_click(index, cursor),
        }
    }
    if cursor.is_none() {
        return None;
    }
    let mut visited = [false; INVENTORY_SIZE];
    if had_stack {
        visited[index] = true;
    }
    Some((mode, visited))
}

/// The pointer moved over slot `index` during a drag.
pub fn mark_visited(visited: &mut [bool; INVENTORY_SIZE], index: usize)
    requires
        index < INVENTORY_SIZE,
    ensures
        final(visited)@ == old(visited)@.update(index as int, true),
{
    visited[index] = true;
}

/// Ends a drag: spreads the held stack over the visited slots.
pub fn end_drag(
    inventory: &mut PlayerInventory,
    cursor: &mut Option<ItemStack>,
    visited: &[bool; INVENTORY_SIZE],
    mode: DragMode,
)
    requires
        old(inventory).wf(),
        slot_valid(*old(cursor)),
    ensures
        final(inventory).wf(),
        slot_valid(*final(cursor)),
        (final(inventory).slots(), *final(cursor)) == drag_result(
            old(inventory).slots(),
            visited@,
            *old(cursor),
            mode,
        ),
{
    inventory.distribute_drag(cursor, visited, mode);
}

/// Closing the inventory puts the held stack back; whatever does not fit stays
/// on the cursor.
pub fn return_cursor_stack(inventory: &mut PlayerInventory, cursor: &mut Option<ItemStack>)
    requires
        old(inventory).wf(),
        slot_valid(*old(cursor)),
    ensures
        final(inventory).wf(),
        slot_valid(*final(cursor)),
        old(cursor).is_none() ==> final(inventory).slots() == old(inventory).slots() && final(cursor).is_none(),
        *old(cursor) matches Some(held) ==> (final(inventory).slots(), *final(cursor)) == placed(
            old(inventory).slots(),
            held.spec_item(),
            held.spec_count() as int,
            0,
            INVENTORY_SIZE as int,
        ),
        final(inventory).selected() == old(inventory).selected(),
        forall|k: ItemKind|
            #![trigger total_with_cursor(final(inventory).slots(), *final(cursor), k)]
            total_with_cursor(final(inventory).slots(), *final(cursor), k) == total_with_cursor(
                old(inventory).slots(),
                *old(cursor),
                k,
            ),
{
    match *cursor {
        Some(stack) => {
            let rest = inventory.insert(stack);
            *cursor = rest;
        },
        None => {},
    }
}

/// The count label of a slot: shown only for more than one item.
pub fn shows_count(stack: Option<ItemStack>) -> (shown: bool)
    ensures
        shown == (stack matches Some(s) && s.spec_count() > 1),
{
    match stack {
        Some(s) => s.count() > 1,
        None => false,
    }
}

/// Whether a slot gets the selection border.
pub fn is_selected_slot(inventory: &PlayerInventory, index: usize) -> (selected: bool)
    requires
        inventory.wf(),
    ensures
        selected == (index < HOTBAR_SIZE && index == inventory.selected()),
{
    index < HOTBAR_SIZE && index == inventory.selected_hotbar()
}

} // verus!
