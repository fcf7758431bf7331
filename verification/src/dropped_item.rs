//! Timing and pickup rules of items dropped in the world.
use vstd::prelude::*;

use crate::inventory::model::{
    ItemKind, ItemStack, PlayerInventory, amount_of, count_in, slot_valid, placed, INVENTORY_SIZE,
};

verus! {

/// A dropped item can be picked up 350 ms after it appeared.
pub const PICKUP_DELAY_NANOS: u128 = 350_000_000;

/// A dropped item disappears five minutes after it appeared.
pub const LIFETIME_NANOS: u128 = 300_000_000_000;

pub open spec fn spec_drop_age(now: u128, spawned_at: u128) -> u128 {
    if now >= spawned_at {
        (now - spawned_at) as u128
    } else {
        0
    }
}

/// Time since an item appeared; zero if the clock reads earlier.
#[verifier::when_used_as_spec(spec_drop_age)]
pub fn drop_age(now: u128, spawned_at: u128) -> (age: u128)
    ensures
        age == if now >= spawned_at {
            now - spawned_at
        } else {
            0
        },
{
    if now >= spawned_at {
        now - spawned_at
    } else {
        0
    }
}

pub fn can_pick_up(now: u128, spawned_at: u128) -> (ready: bool)
    ensures
        ready == (drop_age(now, spawned_at) >= PICKUP_DELAY_NANOS),
{
    drop_age(now, spawned_at) >= PICKUP_DELAY_NANOS
}

pub fn is_expired(now: u128, spawned_at: u128) -> (expired: bool)
    ensures
        expired == (drop_age(now, spawned_at) >= LIFETIME_NANOS),
{
    drop_age(now, spawned_at) >= LIFETIME_NANOS
}

/// Picks a dropped stack up into the inventory; returns what stays on the
/// ground (`None`: the drop disappears).
pub fn pick_up(inventory: &mut PlayerInventory, stack: ItemStack) -> (left: Option<ItemStack>)
    requires
        old(inventory).wf(),
    ensures
        final(inventory).wf(),
        final(inventory).selected() == old(inventory).selected(),
        (final(inventory).slots(), left) == placed(
            old(inventory).slots(),
            stack.spec_item(),
            stack.spec_count() as int,
            0,
            INVENTORY_SIZE as int,
        ),
        slot_valid(left),
        forall|k: ItemKind|
            #![trigger count_in(final(inventory).slots(), k)]
            count_in(final(inventory).slots(), k) + amount_of(left, k) == count_in(
                old(inventory).slots(),
                k,
            ) + amount_of(Some(stack), k),
{
    inventory.insert(stack)
}

} // verus!
