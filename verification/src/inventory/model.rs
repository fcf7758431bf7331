use vstd::prelude::*;

use crate::voxel::data::VoxelKind;

verus! {

pub const HOTBAR_SIZE: usize = 9;

pub const MAIN_INVENTORY_SIZE: usize = 27;

pub const INVENTORY_SIZE: usize = HOTBAR_SIZE + MAIN_INVENTORY_SIZE;

pub const BLOCK_STACK_SIZE: u8 = 64;

/// Something a slot can hold.
#[derive(Clone, Copy, Debug, PartialEq, Eq, Structural, Hash)]
pub enum ItemKind {
    Block(VoxelKind),
}

impl ItemKind {
    pub open spec fn spec_max_stack_size(self) -> u8 {
        BLOCK_STACK_SIZE
    }

    pub open spec fn spec_is_valid(self) -> bool {
        match self {
            ItemKind::Block(kind) => !(kind is Air || kind is Water),
        }
    }

    /// How many items of this kind fit in one slot.
    #[verifier::when_used_as_spec(spec_max_stack_size)]
    pub fn max_stack_size(self) -> (size: u8)
        ensures
            size == self.spec_max_stack_size(),
    {
        match self {
            ItemKind::Block(_) => BLOCK_STACK_SIZE,
        }
    }

    /// Air and water are not items.
    #[verifier::when_used_as_spec(spec_is_valid)]
    pub fn is_valid(self) -> (valid: bool)
        ensures
            valid == self.spec_is_valid(),
    {
        match self {
            ItemKind::Block(VoxelKind::Air) | ItemKind::Block(VoxelKind::Water) => false,
            _ => true,
        }
    }
}

/// A non-empty pile of one valid item kind, never larger than that kind's stack size.
#[derive(Clone, Copy, Debug, PartialEq, Eq, Structural)]
pub struct ItemStack {
    item: ItemKind,
    count: u8,
}

/// Drag gestures over several slots.
#[derive(Clone, Copy, Debug, PartialEq, Eq, Structural)]
pub enum DragMode {
    /// Split the held stack evenly over the visited slots.
    Even,
    /// Drop one item in each visited slot.
    OneEach,
}

impl ItemStack {
    #[verifier::type_invariant]
    spec fn valid(self) -> bool {
        &&& self.item.spec_is_valid()
        &&& 0 < self.count <= self.item.spec_max_stack_size()
    }

    /// The stack invariant, readable in specifications: a valid kind and a count
    /// in `1..=max_stack_size`.
    pub closed spec fn is_valid_stack(self) -> bool {
        self.valid()
    }

    pub closed spec fn spec_item(self) -> ItemKind {
        self.item
    }

    pub closed spec fn spec_count(self) -> u8 {
        self.count
    }

    /// The stack of `count` items of `item`.
    pub closed spec fn of(item: ItemKind, count: int) -> ItemStack {
        ItemStack { item, count: count as u8 }
    }

    /// A new stack; the kind must be valid and the count in `1..=max_stack_size`.
    pub fn new(item: ItemKind, count: u8) -> (stack: Self)
        requires
            item.spec_is_valid(),
            count > 0,
            count <= item.spec_max_stack_size(),
        ensures
            stack.spec_item() == item,
            stack.spec_count() == count,
            stack == ItemStack::of(item, count as int),
    {
        ItemStack { item, count }
    }

    pub fn item(self) -> (item: ItemKind)
        ensures
            item == self.spec_item(),
            item.spec_is_valid(),
    {
        proof {
            use_type_invariant(&self);
        }
        self.item
    }

    pub fn count(self) -> (count: u8)
        ensures
            count == self.spec_count(),
            0 < count <= BLOCK_STACK_SIZE,
    {
        proof {
            use_type_invariant(&self);
        }
        self.count
    }

    pub fn max_stack_size(self) -> (size: u8)
        ensures
            size == self.spec_item().spec_max_stack_size(),
    {
        self.item.max_stack_size()
    }
}

/// What `ItemStack::of` builds: the given kind and count.
pub proof fn lemma_stack_of(item: ItemKind, count: int)
    requires
        0 <= count <= 255,
    ensures
        ItemStack::of(item, count).spec_item() == item,
        ItemStack::of(item, count).spec_count() == count,
{
}

/// Two stacks are equal exactly when their kinds and counts are.
pub proof fn lemma_stack_ext(a: ItemStack, b: ItemStack)
    ensures
        (a.spec_item() == b.spec_item() && a.spec_count() == b.spec_count()) <==> a == b,
{
}

/// A valid stack holds a valid kind and between one item and that kind's stack size.
pub proof fn lemma_stack_valid(a: ItemStack)
    ensures
        a.is_valid_stack() <==> (a.spec_item().spec_is_valid() && 0 < a.spec_count()
            <= a.spec_item().spec_max_stack_size()),
{
}

/// Every occupied slot holds a valid stack.
pub open spec fn stacks_valid(slots: Seq<Option<ItemStack>>) -> bool {
    forall|i: int| 0 <= i < slots.len() ==> (#[trigger] slots[i] matches Some(stack) ==> stack.is_valid_stack())
}

/// Items of kind `item` in an optional stack.
pub open spec fn amount_of(slot: Option<ItemStack>, item: ItemKind) -> int {
    match slot {
        Some(stack) => if stack.spec_item() == item {
            stack.spec_count() as int
        } else {
            0
        },
        None => 0,
    }
}

/// Items of kind `item` over a sequence of slots.
pub open spec fn count_in(slots: Seq<Option<ItemStack>>, item: ItemKind) -> int
    decreases slots.len(),
{
    if slots.len() == 0 {
        0
    } else {
        count_in(slots.drop_last(), item) + amount_of(slots.last(), item)
    }
}

/// Items of kind `item` in the slots and on the cursor together.
pub open spec fn total_with_cursor(
    slots: Seq<Option<ItemStack>>,
    cursor: Option<ItemStack>,
    item: ItemKind,
) -> int {
    count_in(slots, item) + amount_of(cursor, item)
}

pub proof fn lemma_stacks_valid_update(slots: Seq<Option<ItemStack>>, i: int, value: Option<ItemStack>)
    requires
        stacks_valid(slots),
        0 <= i < slots.len(),
        value matches Some(stack) ==> stack.is_valid_stack(),
    ensures
        stacks_valid(slots.update(i, value)),
{
    assert forall|j: int| 0 <= j < slots.len() implies (#[trigger] slots.update(i, value)[j] matches Some(
        stack,
    ) ==> stack.is_valid_stack()) by {
        if j != i {
            assert(slots.update(i, value)[j] == slots[j]);
        }
    }
}

pub proof fn lemma_count_in_update(
    slots: Seq<Option<ItemStack>>,
    i: int,
    value: Option<ItemStack>,
    item: ItemKind,
)
    requires
        0 <= i < slots.len(),
    ensures
        count_in(slots.update(i, value), item) == count_in(slots, item) - amount_of(slots[i], item)
            + amount_of(value, item),
    decreases slots.len(),
{
    let updated = slots.update(i, value);
    if i == slots.len() - 1 {
        assert(updated.drop_last() =~= slots.drop_last());
    } else {
        lemma_count_in_update(slots.drop_last(), i, value, item);
        assert(updated.drop_last() =~= slots.drop_last().update(i, value));
    }
}

/// Tops up the stacks of `item` in slots `i..hi`, in slot order, from `amount`
/// items; returns the slots and the items that did not fit.
pub open spec fn fill_matching(
    slots: Seq<Option<ItemStack>>,
    i: int,
    hi: int,
    item: ItemKind,
    amount: int,
) -> (Seq<Option<ItemStack>>, int)
    decreases hi - i,
{
    if i < 0 || i >= hi || i >= slots.len() {
        (slots, amount)
    } else {
        match slots[i] {
            Some(stack) => if stack.spec_item() == item {
                let capacity = item.spec_max_stack_size() - stack.spec_count();
                let moved = if capacity < amount {
                    capacity
                } else {
                    amount
                };
                fill_matching(
                    slots.update(i, Some(ItemStack::of(item, stack.spec_count() + moved))),
                    i + 1,
                    hi,
                    item,
                    amount - moved,
                )
            } else {
                fill_matching(slots, i + 1, hi, item, amount)
            },
            None => fill_matching(slots, i + 1, hi, item, amount),
        }
    }
}

/// The first empty slot among `i..hi`.
pub open spec fn first_empty(slots: Seq<Option<ItemStack>>, i: int, hi: int) -> Option<int>
    decreases hi - i,
{
    if i < 0 || i >= hi || i >= slots.len() {
        None
    } else if slots[i] is None {
        Some(i)
    } else {
        first_empty(slots, i + 1, hi)
    }
}

/// Moving `count` items of `item` into slots `lo..hi`: first onto matching
/// stacks in slot order, then whatever is left into the first empty slot.
/// Returns the slots and the stack that found no room.
pub open spec fn placed(
    slots: Seq<Option<ItemStack>>,
    item: ItemKind,
    count: int,
    lo: int,
    hi: int,
) -> (Seq<Option<ItemStack>>, Option<ItemStack>) {
    let (filled, left) = fill_matching(slots, lo, hi, item, count);
    if left == 0 {
        (filled, None)
    } else {
        match first_empty(filled, lo, hi) {
            Some(j) => (filled.update(j, Some(ItemStack::of(item, left))), None),
            None => (filled, Some(ItemStack::of(item, left))),
        }
    }
}

proof fn lemma_fill_zero(slots: Seq<Option<ItemStack>>, i: int, hi: int, item: ItemKind)
    requires
        stacks_valid(slots),
    ensures
        fill_matching(slots, i, hi, item, 0) == (slots, 0int),
    decreases hi - i,
{
    if i < 0 || i >= hi || i >= slots.len() {
    } else {
        match slots[i] {
            Some(stack) => {
                if stack.spec_item() == item {
                    assert(stack.valid());
                    assert(ItemStack::of(item, stack.spec_count() + 0) == stack);
                    assert(slots.update(i, Some(stack)) =~= slots);
                }
            },
            None => {},
        }
        lemma_fill_zero(slots, i + 1, hi, item);
    }
}

proof fn lemma_fill(slots: Seq<Option<ItemStack>>, i: int, hi: int, item: ItemKind, amount: int)
    requires
        stacks_valid(slots),
        0 <= amount <= BLOCK_STACK_SIZE,
        item.spec_is_valid(),
    ensures
        ({
            let (filled, left) = fill_matching(slots, i, hi, item, amount);
            &&& stacks_valid(filled)
            &&& filled.len() == slots.len()
            &&& 0 <= left <= amount
            &&& forall|k: ItemKind|
                #![trigger count_in(filled, k)]
                count_in(filled, k) + (if k == item {
                    left
                } else {
                    0
                }) == count_in(slots, k) + (if k == item {
                    amount
                } else {
                    0
                })
        }),
    decreases hi - i,
{
    if i < 0 || i >= hi || i >= slots.len() {
    } else {
        match slots[i] {
            Some(stack) => {
                if stack.spec_item() == item {
                    assert(stack.valid());
                    let capacity = item.spec_max_stack_size() - stack.spec_count();
                    let moved = if capacity < amount {
                        capacity
                    } else {
                        amount
                    };
                    let next = ItemStack::of(item, stack.spec_count() + moved);
                    assert(next.valid());
                    lemma_stacks_valid_update(slots, i, Some(next));
                    let updated = slots.update(i, Some(next));
                    lemma_fill(updated, i + 1, hi, item, amount - moved);
                    assert forall|k: ItemKind| #![trigger count_in(updated, k)]
                        count_in(updated, k) == count_in(slots, k) + (if k == item {
                            moved
                        } else {
                            0
                        }) by {
                        lemma_count_in_update(slots, i, Some(next), k);
                    }
                } else {
                    lemma_fill(slots, i + 1, hi, item, amount);
                }
            },
            None => {
                lemma_fill(slots, i + 1, hi, item, amount);
            },
        }
    }
}

proof fn lemma_first_empty(slots: Seq<Option<ItemStack>>, i: int, hi: int)
    ensures
        first_empty(slots, i, hi) matches Some(j) ==> (0 <= i <= j < hi && j < slots.len()
            && slots[j] is None),
        first_empty(slots, i, hi) matches Some(j) ==> forall|k: int| i <= k < j ==> #[trigger] slots[k] is Some,
    decreases hi - i,
{
    if i < 0 || i >= hi || i >= slots.len() {
    } else if slots[i] is None {
    } else {
        lemma_first_empty(slots, i + 1, hi);
    }
}

/// Free room on the stacks of `item` in slots `i..hi`.
pub open spec fn free_room(slots: Seq<Option<ItemStack>>, i: int, hi: int, item: ItemKind) -> int
    decreases hi - i,
{
    if i < 0 || i >= hi || i >= slots.len() {
        0
    } else {
        (match slots[i] {
            Some(stack) => if stack.spec_item() == item {
                item.spec_max_stack_size() - stack.spec_count()
            } else {
                0
            },
            None => 0,
        }) + free_room(slots, i + 1, hi, item)
    }
}

proof fn lemma_free_room_frame(
    slots: Seq<Option<ItemStack>>,
    i: int,
    hi: int,
    item: ItemKind,
    j: int,
    value: Option<ItemStack>,
)
    requires
        0 <= j < slots.len(),
        j < i || j >= hi,
    ensures
        free_room(slots.update(j, value), i, hi, item) == free_room(slots, i, hi, item),
    decreases hi - i,
{
    if i < 0 || i >= hi || i >= slots.len() {
    } else {
        lemma_free_room_frame(slots, i + 1, hi, item, j, value);
    }
}

proof fn lemma_first_empty_none(slots: Seq<Option<ItemStack>>, i: int, hi: int)
    requires
        0 <= i,
    ensures
        first_empty(slots, i, hi) is None <==> forall|j: int|
            i <= j < hi && j < slots.len() ==> #[trigger] slots[j] is Some,
    decreases hi - i,
{
    if i >= hi || i >= slots.len() {
    } else if slots[i] is None {
    } else {
        lemma_first_empty_none(slots, i + 1, hi);
        assert forall|j: int| i <= j < hi && j < slots.len() && (forall|t: int|
            i + 1 <= t < hi && t < slots.len() ==> #[trigger] slots[t] is Some) implies #[trigger] slots[j] is Some by {
            if j > i {
            }
        }
    }
}

/// Topping up leaves nothing when the room suffices and the excess otherwise;
/// it fills no empty slot and empties none.
proof fn lemma_fill_leftover(slots: Seq<Option<ItemStack>>, i: int, hi: int, item: ItemKind, amount: int)
    requires
        stacks_valid(slots),
        0 <= amount,
        item.spec_is_valid(),
    ensures
        ({
            let (filled, left) = fill_matching(slots, i, hi, item, amount);
            &&& free_room(slots, i, hi, item) >= 0
            &&& left == if amount <= free_room(slots, i, hi, item) {
                0
            } else {
                amount - free_room(slots, i, hi, item)
            }
            &&& filled.len() == slots.len()
            &&& forall|j: int| 0 <= j < slots.len() ==> (#[trigger] filled[j] is None) == (slots[j] is None)
            &&& forall|j: int| 0 <= j < slots.len() && (j < i || j >= hi) ==> #[trigger] filled[j] == slots[j]
            &&& left > 0 ==> forall|j: int|
                0 <= i <= j < hi && j < slots.len() && (slots[j] matches Some(s) && s.spec_item() == item)
                    ==> (#[trigger] filled[j] matches Some(t) && t.spec_item() == item && t.spec_count()
                    == item.spec_max_stack_size())
        }),
    decreases hi - i,
{
    if i < 0 || i >= hi || i >= slots.len() {
    } else {
        match slots[i] {
            Some(stack) => {
                if stack.spec_item() == item {
                    assert(stack.valid());
                    let capacity = item.spec_max_stack_size() - stack.spec_count();
                    let moved = if capacity < amount {
                        capacity
                    } else {
                        amount
                    };
                    let next = ItemStack::of(item, stack.spec_count() + moved);
                    assert(next.valid());
                    lemma_stacks_valid_update(slots, i, Some(next));
                    let updated = slots.update(i, Some(next));
                    lemma_fill_leftover(updated, i + 1, hi, item, amount - moved);
                    lemma_free_room_frame(slots, i + 1, hi, item, i, Some(next));
                    assert(free_room(slots, i, hi, item) == capacity + free_room(slots, i + 1, hi, item));
                    let (filled, left) = fill_matching(slots, i, hi, item, amount);
                    assert((filled, left) == fill_matching(updated, i + 1, hi, item, amount - moved));
                    assert forall|j: int| 0 <= j < slots.len() implies (#[trigger] filled[j] is None) == (slots[j] is None) by {
                        assert(filled[j] is None == updated[j] is None);
                    }
                    if left > 0 {
                        assert(moved == capacity);
                        assert(filled[i] == updated[i]);
                        assert forall|j: int|
                            0 <= i <= j < hi && j < slots.len() && (slots[j] matches Some(s) && s.spec_item() == item)
                                implies (#[trigger] filled[j] matches Some(t) && t.spec_item() == item && t.spec_count()
                                == item.spec_max_stack_size()) by {
                            if j > i {
                                assert(updated[j] == slots[j]);
                            }
                        }
                    }
                } else {
                    lemma_fill_leftover(slots, i + 1, hi, item, amount);
                }
            },
            None => {
                lemma_fill_leftover(slots, i + 1, hi, item, amount);
            },
        }
    }
}

/// What does not fit when placing `count` items of `item` into slots
/// `lo..hi`: nothing exactly when the stacks of `item` there have room for all
/// of them or some slot there is empty; otherwise every slot there is occupied
/// and the stack left over holds the items beyond the free room.
pub proof fn lemma_placed_leftover(
    slots: Seq<Option<ItemStack>>,
    item: ItemKind,
    count: int,
    lo: int,
    hi: int,
)
    requires
        stacks_valid(slots),
        item.spec_is_valid(),
        0 < count <= BLOCK_STACK_SIZE,
        0 <= lo,
    ensures
        ({
            let (after, rest) = placed(slots, item, count, lo, hi);
            let room = free_room(slots, lo, hi, item);
            &&& rest is None <==> (count <= room || exists|j: int|
                lo <= j < hi && j < slots.len() && #[trigger] slots[j] is None)
            &&& rest matches Some(r) ==> r.spec_item() == item && r.spec_count() == count - room
                && forall|j: int| lo <= j < hi && j < slots.len() ==> #[trigger] slots[j] is Some
            &&& after.len() == slots.len()
            &&& forall|j: int| 0 <= j < slots.len() && (j < lo || j >= hi) ==> #[trigger] after[j] == slots[j]
            &&& count <= room ==> forall|j: int|
                lo <= j < hi && j < slots.len() && slots[j] is None ==> #[trigger] after[j] is None
            &&& count > room ==> forall|j: int|
                lo <= j < hi && j < slots.len() && (slots[j] matches Some(s) && s.spec_item() == item)
                    ==> (#[trigger] after[j] matches Some(t) && t.spec_item() == item && t.spec_count()
                    == item.spec_max_stack_size())
            &&& (count > room && rest is None) ==> exists|j0: int|
                lo <= j0 < hi && j0 < slots.len() && #[trigger] slots[j0] is None && (forall|k: int|
                    lo <= k < j0 ==> #[trigger] slots[k] is Some) && after[j0] == Some(
                    ItemStack::of(item, count - room),
                ) && forall|j: int|
                    lo <= j < hi && j < slots.len() && j != j0 && slots[j] is None
                        ==> #[trigger] after[j] is None
        }),
{
    lemma_fill_leftover(slots, lo, hi, item, count);
    let (filled, left) = fill_matching(slots, lo, hi, item, count);
    lemma_first_empty_none(filled, lo, hi);
    lemma_first_empty_none(slots, lo, hi);
    lemma_first_empty(filled, lo, hi);
    if left != 0 {
        lemma_stack_of(item, left);
        if let Some(j0) = first_empty(filled, lo, hi) {
            assert(slots[j0] is None);
            assert forall|k: int| lo <= k < j0 implies #[trigger] slots[k] is Some by {
                assert(filled[k] is Some);
            }
        }
        assert forall|j: int| lo <= j < hi && j < slots.len() implies (#[trigger] slots[j] is Some) == (
        filled[j] is Some) by {
            assert(filled[j] is None == slots[j] is None);
        }
    }
}

/// Items of kind `item` in slots `i..`.
pub open spec fn count_from(slots: Seq<Option<ItemStack>>, i: int, item: ItemKind) -> int
    decreases slots.len() - i,
{
    if i < 0 || i >= slots.len() {
        0
    } else {
        amount_of(slots[i], item) + count_from(slots, i + 1, item)
    }
}

proof fn lemma_count_from_frame(
    slots: Seq<Option<ItemStack>>,
    i: int,
    item: ItemKind,
    j: int,
    value: Option<ItemStack>,
)
    requires
        0 <= j < i,
        j < slots.len(),
    ensures
        count_from(slots.update(j, value), i, item) == count_from(slots, i, item),
    decreases slots.len() - i,
{
    if i < 0 || i >= slots.len() {
    } else {
        lemma_count_from_frame(slots, i + 1, item, j, value);
    }
}

/// Gathering onto a held stack of `held` items of `item` from slots `i..`
/// ends with as many as the stack size allows: all the items there, or a full
/// stack.
pub proof fn lemma_collect_total(slots: Seq<Option<ItemStack>>, i: int, item: ItemKind, held: int)
    requires
        stacks_valid(slots),
        0 <= held <= item.spec_max_stack_size(),
        0 <= i,
    ensures
        count_from(slots, i, item) >= 0,
        collect_from(slots, i, item, held).1 == if held + count_from(slots, i, item)
            <= item.spec_max_stack_size() {
            held + count_from(slots, i, item)
        } else {
            item.spec_max_stack_size() as int
        },
    decreases slots.len() - i,
{
    if i >= slots.len() {
    } else {
        match slots[i] {
            Some(stack) => {
                assert(stack.valid());
                if stack.spec_item() == item {
                    let capacity = item.spec_max_stack_size() - held;
                    let moved = if capacity < stack.spec_count() {
                        capacity
                    } else {
                        stack.spec_count() as int
                    };
                    let next = stack_or_empty(item, stack.spec_count() - moved);
                    if next is Some {
                        assert(next.unwrap().valid());
                    }
                    lemma_stacks_valid_update(slots, i, next);
                    lemma_collect_total(slots.update(i, next), i + 1, item, held + moved);
                    lemma_count_from_frame(slots, i + 1, item, i, next);
                } else {
                    lemma_collect_total(slots, i + 1, item, held);
                }
            },
            None => {
                lemma_collect_total(slots, i + 1, item, held);
            },
        }
    }
}

/// Right click, with an empty cursor: an empty slot stays empty; from a stack of
/// `c` items the cursor takes the larger half, `c - c / 2`, and the slot keeps
/// the smaller half, `c / 2` (nothing when that is zero). Holding `n` items, on
/// a slot that is empty or holds fewer than a full stack of the same kind: the
/// slot gains exactly one item of that kind and the cursor keeps `n - 1` (nothing
/// when `n` is one). On any other slot nothing changes.
pub proof fn lemma_right_click_law(slot: Option<ItemStack>, held: Option<ItemStack>)
    requires
        slot_valid(slot),
        slot_valid(held),
    ensures
        ({
            let (s2, h2) = right_click_result(slot, held);
            &&& (held is None && slot is None) ==> s2 is None && h2 is None
            &&& slot matches Some(s) ==> held is None ==> {
                &&& h2 matches Some(h) && h.spec_item() == s.spec_item() && h.spec_count() == s.spec_count()
                    - s.spec_count() / 2
                &&& amount_of(s2, s.spec_item()) == s.spec_count() / 2
                &&& (s2 is Some <==> s.spec_count() / 2 > 0)
            }
            &&& held matches Some(h) ==> (slot is None || (slot matches Some(s) && s.spec_item()
                == h.spec_item() && s.spec_count() < s.spec_item().spec_max_stack_size())) ==> {
                &&& s2 matches Some(t) && t.spec_item() == h.spec_item()
                &&& amount_of(s2, h.spec_item()) == amount_of(slot, h.spec_item()) + 1
                &&& amount_of(h2, h.spec_item()) == h.spec_count() - 1
                &&& (h2 is Some <==> h.spec_count() > 1)
                &&& (h2 matches Some(c) ==> c.spec_item() == h.spec_item())
            }
            &&& held matches Some(h) ==> (slot matches Some(s) && !(s.spec_item() == h.spec_item()
                && s.spec_count() < s.spec_item().spec_max_stack_size())) ==> s2 == slot && h2 == held
        }),
{
    match slot {
        Some(s) => {
            assert(s.valid());
            lemma_stack_of(s.spec_item(), (s.spec_count() + 1) / 2);
            lemma_stack_of(s.spec_item(), s.spec_count() as int / 2);
            lemma_stack_of(s.spec_item(), s.spec_count() + 1);
        },
        None => {},
    }
    match held {
        Some(h) => {
            assert(h.valid());
            lemma_stack_of(h.spec_item(), 1);
            lemma_stack_of(h.spec_item(), h.spec_count() - 1);
        },
        None => {},
    }
}

/// Left click: with an empty cursor it picks the slot's stack up; holding a
/// stack over an empty slot or a stack of another kind, it puts the held stack
/// down and takes what was there. Over a stack of the same kind it tops that
/// stack up to at most a full stack and keeps the rest on the cursor (nothing
/// when all of it fit). Items of each kind are neither lost nor made.
pub proof fn lemma_left_click_law(slot: Option<ItemStack>, held: Option<ItemStack>)
    requires
        slot_valid(slot),
        slot_valid(held),
    ensures
        ({
            let (s2, h2) = left_click_result(slot, held);
            &&& !(slot matches Some(s) && held matches Some(h) && s.spec_item() == h.spec_item())
                ==> s2 == held && h2 == slot
            &&& slot matches Some(s) ==> held matches Some(h) ==> s.spec_item() == h.spec_item() ==> {
                let total = s.spec_count() + h.spec_count();
                let max = s.spec_item().spec_max_stack_size();
                &&& s2 matches Some(t) && t.spec_item() == s.spec_item()
                &&& amount_of(s2, s.spec_item()) == if total <= max {
                    total
                } else {
                    max as int
                }
                &&& amount_of(h2, s.spec_item()) == total - amount_of(s2, s.spec_item())
                &&& (h2 is Some <==> total > max)
                &&& (h2 matches Some(c) ==> c.spec_item() == s.spec_item())
            }
        }),
{
    match (slot, held) {
        (Some(s), Some(h)) => {
            assert(s.valid());
            assert(h.valid());
            if s.spec_item() == h.spec_item() {
                let capacity = s.spec_item().spec_max_stack_size() - s.spec_count();
                let moved = if capacity < h.spec_count() {
                    capacity
                } else {
                    h.spec_count() as int
                };
                lemma_stack_of(s.spec_item(), s.spec_count() + moved);
                lemma_stack_of(h.spec_item(), h.spec_count() - moved);
            }
        },
        _ => {},
    }
}

/// Visited slots from `i` on that are empty or hold fewer than a full stack of
/// `item`.
pub open spec fn accepting_from(
    slots: Seq<Option<ItemStack>>,
    visited: Seq<bool>,
    item: ItemKind,
    i: int,
) -> int
    decreases slots.len() - i,
{
    if i < 0 || i >= slots.len() {
        0
    } else {
        (if visited[i] && (slots[i] is None || (slots[i] matches Some(s) && s.spec_item() == item
            && s.spec_count() < item.spec_max_stack_size())) {
            1int
        } else {
            0
        }) + accepting_from(slots, visited, item, i + 1)
    }
}

proof fn lemma_accepting_from_frame(
    slots: Seq<Option<ItemStack>>,
    visited: Seq<bool>,
    item: ItemKind,
    i: int,
    j: int,
    value: Option<ItemStack>,
)
    requires
        0 <= j < i,
        j < slots.len(),
    ensures
        accepting_from(slots.update(j, value), visited, item, i) == accepting_from(slots, visited, item, i),
        accepting_from(slots, visited, item, i) >= 0,
    decreases slots.len() - i,
{
    if i < 0 || i >= slots.len() {
    } else {
        lemma_accepting_from_frame(slots, visited, item, i + 1, j, value);
    }
}

proof fn lemma_compatible_counts(
    slots: Seq<Option<ItemStack>>,
    visited: Seq<bool>,
    item: ItemKind,
    k: int,
)
    requires
        0 <= k <= slots.len(),
        visited.len() == slots.len(),
    ensures
        compatible_upto(slots, visited, item, k) + accepting_from(slots, visited, item, k)
            == accepting_from(slots, visited, item, 0),
    decreases k,
{
    if k > 0 {
        lemma_compatible_counts(slots, visited, item, k - 1);
    }
}

proof fn lemma_even_from_law(
    slots: Seq<Option<ItemStack>>,
    visited: Seq<bool>,
    i: int,
    item: ItemKind,
    held: int,
    per: int,
)
    requires
        stacks_valid(slots),
        item.spec_is_valid(),
        visited.len() == slots.len(),
        0 <= i,
        0 < per <= item.spec_max_stack_size(),
        per * accepting_from(slots, visited, item, i) <= held,
    ensures
        ({
            let (after, left) = even_from(slots, visited, i, item, held, per);
            &&& after.len() == slots.len()
            &&& forall|j: int|
                i <= j < slots.len() && visited[j] && slots[j] is None ==> #[trigger] after[j] == Some(
                    ItemStack::of(item, per),
                )
            &&& forall|j: int|
                i <= j < slots.len() && visited[j] && (slots[j] matches Some(s)
                    && s.spec_item() == item) ==> #[trigger] after[j] == Some(
                    ItemStack::of(
                        item,
                        slots[j].unwrap().spec_count() + if per < item.spec_max_stack_size()
                            - slots[j].unwrap().spec_count() {
                            per
                        } else {
                            item.spec_max_stack_size() - slots[j].unwrap().spec_count()
                        },
                    ),
                )
            &&& forall|j: int|
                0 <= j < slots.len() && (j < i || !visited[j] || (slots[j] matches Some(s)
                    && s.spec_item() != item)) ==> #[trigger] after[j] == slots[j]
        }),
    decreases slots.len() - i,
{
    if i >= slots.len() {
    } else {
        lemma_accepting_from_frame(slots, visited, item, i + 1, i, None);
        let rest = accepting_from(slots, visited, item, i + 1);
        if !visited[i] {
            lemma_even_from_law(slots, visited, i + 1, item, held, per);
        } else {
            match slots[i] {
                None => {
                    assert(per * (1 + rest) == per + per * rest) by (nonlinear_arith);
                    assert(per * rest >= 0) by (nonlinear_arith)
                        requires
                            per > 0,
                            rest >= 0,
                    ;
                    let next = ItemStack::of(item, per);
                    assert(next.valid());
                    lemma_stacks_valid_update(slots, i, Some(next));
                    lemma_accepting_from_frame(slots, visited, item, i + 1, i, Some(next));
                    lemma_even_from_law(slots.update(i, Some(next)), visited, i + 1, item, held - per, per);
                },
                Some(stack) => {
                    assert(stack.valid());
                    if stack.spec_item() == item {
                        let capacity = item.spec_max_stack_size() - stack.spec_count();
                        let bounded = if per < capacity {
                            per
                        } else {
                            capacity
                        };
                        if capacity > 0 {
                            assert(per * (1 + rest) == per + per * rest) by (nonlinear_arith);
                        }
                        assert(per * rest >= 0) by (nonlinear_arith)
                            requires
                                per > 0,
                                rest >= 0,
                        ;
                        let next = ItemStack::of(item, stack.spec_count() + bounded);
                        assert(next.valid());
                        lemma_stacks_valid_update(slots, i, Some(next));
                        lemma_accepting_from_frame(slots, visited, item, i + 1, i, Some(next));
                        if held > 0 {
                            lemma_even_from_law(
                                slots.update(i, Some(next)),
                                visited,
                                i + 1,
                                item,
                                held - bounded,
                                per,
                            );
                        } else {
                            lemma_even_from_law(slots, visited, i + 1, item, held, per);
                        }
                    } else {
                        lemma_even_from_law(slots, visited, i + 1, item, held, per);
                    }
                },
            }
        }
    }
}

proof fn lemma_accepting_monotone(
    slots: Seq<Option<ItemStack>>,
    visited: Seq<bool>,
    item: ItemKind,
    i: int,
    j: int,
)
    requires
        0 <= i <= j,
    ensures
        accepting_from(slots, visited, item, i) >= accepting_from(slots, visited, item, j),
        accepting_from(slots, visited, item, j) >= 0,
    decreases j - i,
{
    if i < j {
        lemma_accepting_monotone(slots, visited, item, i + 1, j);
    } else if j < slots.len() {
        lemma_accepting_from_frame(slots, visited, item, j + 1, j, None);
    }
}

/// Whether `slot` can take one more item of `item`.
pub open spec fn takes_one(slot: Option<ItemStack>, item: ItemKind) -> bool {
    slot is None || (slot matches Some(s) && s.spec_item() == item && s.spec_count()
        < item.spec_max_stack_size())
}

proof fn lemma_one_each_from_law(
    slots: Seq<Option<ItemStack>>,
    visited: Seq<bool>,
    i: int,
    item: ItemKind,
    held: int,
)
    requires
        stacks_valid(slots),
        item.spec_is_valid(),
        visited.len() == slots.len(),
        0 <= i,
    ensures
        ({
            let (after, left) = one_each_from(slots, visited, i, item, held);
            let a = accepting_from(slots, visited, item, i);
            &&& after.len() == slots.len()
            &&& left == if held <= 0 {
                held
            } else if held >= a {
                held - a
            } else {
                0
            }
            &&& forall|j: int|
                i <= j < slots.len() && visited[j] && takes_one(slots[j], item) ==> #[trigger] after[j]
                    == if a - accepting_from(slots, visited, item, j) < held {
                    Some(ItemStack::of(item, amount_of(slots[j], item) + 1))
                } else {
                    slots[j]
                }
            &&& forall|j: int|
                0 <= j < slots.len() && (j < i || !visited[j] || !takes_one(slots[j], item))
                    ==> #[trigger] after[j] == slots[j]
        }),
    decreases slots.len() - i,
{
    if i >= slots.len() {
    } else {
        lemma_accepting_from_frame(slots, visited, item, i + 1, i, None);
        assert forall|j: int| i < j < slots.len() implies accepting_from(slots, visited, item, i + 1)
            >= #[trigger] accepting_from(slots, visited, item, j) by {
            lemma_accepting_monotone(slots, visited, item, i + 1, j);
        }
        if visited[i] && held > 0 && takes_one(slots[i], item) {
            let next = ItemStack::of(item, amount_of(slots[i], item) + 1);
            match slots[i] {
                Some(st) => {
                    assert(st.valid());
                },
                None => {},
            }
            assert(next.valid());
            lemma_stacks_valid_update(slots, i, Some(next));
            lemma_accepting_from_frame(slots, visited, item, i + 1, i, Some(next));
            let updated = slots.update(i, Some(next));
            assert forall|j: int| i < j < slots.len() implies accepting_from(updated, visited, item, j)
                == #[trigger] accepting_from(slots, visited, item, j) by {
                lemma_accepting_from_frame(slots, visited, item, j, i, Some(next));
            }
            lemma_one_each_from_law(updated, visited, i + 1, item, held - 1);
        } else {
            lemma_one_each_from_law(slots, visited, i + 1, item, held);
        }
    }
}

/// One-each drag: holding `n` items, the visited slots that are empty or hold
/// fewer than a full stack of the held kind take one item each, in slot order,
/// while items remain: the first `min(n, c)` of those `c` slots gain exactly
/// one item of the held kind, every other slot is left alone, and the cursor
/// keeps `n - min(n, c)` items (nothing when that is zero).
pub proof fn lemma_one_each_drag_law(slots: Seq<Option<ItemStack>>, visited: Seq<bool>, hand: ItemStack)
    requires
        stacks_valid(slots),
        hand.is_valid_stack(),
        visited.len() == slots.len(),
    ensures
        ({
            let item = hand.spec_item();
            let n = hand.spec_count() as int;
            let c = accepting_from(slots, visited, item, 0);
            let (after, cursor) = drag_result(slots, visited, Some(hand), DragMode::OneEach);
            &&& after.len() == slots.len()
            &&& forall|j: int|
                0 <= j < slots.len() && visited[j] && takes_one(slots[j], item) ==> (#[trigger] after[j]
                    == if c - accepting_from(slots, visited, item, j) < n {
                    Some(ItemStack::of(item, amount_of(slots[j], item) + 1))
                } else {
                    slots[j]
                })
            &&& forall|j: int|
                0 <= j < slots.len() && (!visited[j] || !takes_one(slots[j], item)) ==> #[trigger] after[j]
                    == slots[j]
            &&& amount_of(cursor, item) == if n >= c {
                n - c
            } else {
                0
            }
            &&& (cursor is Some <==> n > c)
            &&& (cursor matches Some(h) ==> h.spec_item() == item)
        }),
{
    let item = hand.spec_item();
    let n = hand.spec_count() as int;
    assert(hand.valid());
    lemma_one_each_from_law(slots, visited, 0, item, n);
    lemma_accepting_monotone(slots, visited, item, 0, 0);
    let (after, left) = one_each_from(slots, visited, 0, item, n);
    if left > 0 {
        lemma_stack_of(item, left);
    }
}

/// Even drag: with `n` items held and `c > 0` visited slots that are empty or
/// hold fewer than a full stack of the held kind, the share is `n / c`. When the
/// share is positive every visited empty slot receives exactly the share, and
/// every visited stack of the held kind is topped up by the share or until it
/// is full; every other slot is left alone, and no item is lost or made. With no
/// such slot, or a zero share, nothing changes.
pub proof fn lemma_even_drag_law(slots: Seq<Option<ItemStack>>, visited: Seq<bool>, hand: ItemStack)
    requires
        stacks_valid(slots),
        hand.is_valid_stack(),
        visited.len() == slots.len(),
    ensures
        ({
            let item = hand.spec_item();
            let n = hand.spec_count() as int;
            let c = accepting_from(slots, visited, item, 0);
            let (after, cursor) = drag_result(slots, visited, Some(hand), DragMode::Even);
            &&& (c == 0 || n / c == 0) ==> after == slots && cursor == Some(hand)
            &&& (c > 0 && n / c > 0) ==> {
                &&& after.len() == slots.len()
                &&& forall|j: int|
                    0 <= j < slots.len() && visited[j] && #[trigger] slots[j] is None ==> (after[j] matches Some(t)
                        && t.spec_item() == item && t.spec_count() == n / c)
                &&& forall|j: int|
                    0 <= j < slots.len() && visited[j] && (#[trigger] slots[j] matches Some(s) && s.spec_item()
                        == item) ==> (after[j] matches Some(t) && t.spec_item() == item && t.spec_count()
                        == slots[j].unwrap().spec_count() + if n / c < item.spec_max_stack_size()
                        - slots[j].unwrap().spec_count() {
                        n / c
                    } else {
                        item.spec_max_stack_size() - slots[j].unwrap().spec_count()
                    })
                &&& forall|j: int|
                    0 <= j < slots.len() && (!visited[j] || (#[trigger] slots[j] matches Some(s)
                        && s.spec_item() != item)) ==> after[j] == slots[j]
            }
        }),
{
    let item = hand.spec_item();
    let n = hand.spec_count() as int;
    assert(hand.valid());
    lemma_compatible_counts(slots, visited, item, slots.len() as int);
    let c = accepting_from(slots, visited, item, 0);
    if c > 0 && n / c > 0 {
        let per = n / c;
        assert(per * c <= n) by (nonlinear_arith)
            requires
                c > 0,
                n >= 0,
                per == n / c,
        ;
        assert(per <= n) by (nonlinear_arith)
            requires
                c > 0,
                n >= 0,
                per == n / c,
        ;
        lemma_even_from_law(slots, visited, 0, item, n, per);
        assert forall|j: int|
            0 <= j < slots.len() && visited[j] && (#[trigger] slots[j] matches Some(s) && s.spec_item()
                == item) implies slots[j].unwrap().spec_count() + (if per < item.spec_max_stack_size()
            - slots[j].unwrap().spec_count() {
            per
        } else {
            item.spec_max_stack_size() - slots[j].unwrap().spec_count()
        }) <= 255 by {
            assert(slots[j].unwrap().valid());
        }
        lemma_stack_of(item, per);
    }
}

/// Placing a stack keeps every stack valid and loses or creates no item.
pub proof fn lemma_placed(
    slots: Seq<Option<ItemStack>>,
    stack: ItemStack,
    lo: int,
    hi: int,
)
    requires
        stacks_valid(slots),
        stack.is_valid_stack(),
    ensures
        ({
            let (after, rest) = placed(slots, stack.spec_item(), stack.spec_count() as int, lo, hi);
            &&& stacks_valid(after)
            &&& after.len() == slots.len()
            &&& (rest matches Some(r) ==> r.is_valid_stack() && r.spec_item() == stack.spec_item())
            &&& forall|k: ItemKind|
                #![trigger count_in(after, k)]
                count_in(after, k) + amount_of(rest, k) == count_in(slots, k) + amount_of(
                    Some(stack),
                    k,
                )
        }),
{
    let item = stack.spec_item();
    assert(stack.valid());
    lemma_fill(slots, lo, hi, item, stack.spec_count() as int);
    let (filled, left) = fill_matching(slots, lo, hi, item, stack.spec_count() as int);
    if left != 0 {
        let rest = ItemStack::of(item, left);
        assert(rest.valid());
        lemma_first_empty(filled, lo, hi);
        match first_empty(filled, lo, hi) {
            Some(j) => {
                lemma_stacks_valid_update(filled, j, Some(rest));
                assert forall|k: ItemKind| #![trigger count_in(filled.update(j, Some(rest)), k)]
                    count_in(filled.update(j, Some(rest)), k) == count_in(filled, k) + amount_of(
                        Some(rest),
                        k,
                    ) by {
                    lemma_count_in_update(filled, j, Some(rest), k);
                }
            },
            None => {},
        }
    }
}

/// Placing into `lo..hi` leaves every slot outside that range untouched.
proof fn lemma_fill_keeps_outside(
    slots: Seq<Option<ItemStack>>,
    i: int,
    hi: int,
    item: ItemKind,
    amount: int,
    j: int,
)
    requires
        0 <= j < slots.len(),
        j < i || j >= hi,
    ensures
        fill_matching(slots, i, hi, item, amount).0[j] == slots[j],
        fill_matching(slots, i, hi, item, amount).0.len() == slots.len(),
    decreases hi - i,
{
    if i < 0 || i >= hi || i >= slots.len() {
    } else {
        match slots[i] {
            Some(stack) => {
                if stack.spec_item() == item {
                    let capacity = item.spec_max_stack_size() - stack.spec_count();
                    let moved = if capacity < amount {
                        capacity
                    } else {
                        amount
                    };
                    lemma_fill_keeps_outside(
                        slots.update(i, Some(ItemStack::of(item, stack.spec_count() + moved))),
                        i + 1,
                        hi,
                        item,
                        amount - moved,
                        j,
                    );
                } else {
                    lemma_fill_keeps_outside(slots, i + 1, hi, item, amount, j);
                }
            },
            None => {
                lemma_fill_keeps_outside(slots, i + 1, hi, item, amount, j);
            },
        }
    }
}

proof fn lemma_placed_keeps_outside(
    slots: Seq<Option<ItemStack>>,
    item: ItemKind,
    count: int,
    lo: int,
    hi: int,
    j: int,
)
    requires
        0 <= j < slots.len(),
        0 <= lo,
        j < lo || j >= hi,
    ensures
        placed(slots, item, count, lo, hi).0[j] == slots[j],
{
    lemma_fill_keeps_outside(slots, lo, hi, item, count, j);
    let (filled, left) = fill_matching(slots, lo, hi, item, count);
    lemma_first_empty(filled, lo, hi);
}

/// A valid optional stack.
pub open spec fn slot_valid(slot: Option<ItemStack>) -> bool {
    slot matches Some(stack) ==> stack.is_valid_stack()
}

/// `count` items of `item`, or nothing when the count is zero.
pub open spec fn stack_or_empty(item: ItemKind, count: int) -> Option<ItemStack> {
    if count > 0 {
        Some(ItemStack::of(item, count))
    } else {
        None
    }
}

/// Left click on a slot while the cursor holds `held`: pick up, put down,
/// merge as much as fits, or swap. Returns the new slot and cursor contents.
pub open spec fn left_click_result(slot: Option<ItemStack>, held: Option<ItemStack>) -> (
    Option<ItemStack>,
    Option<ItemStack>,
) {
    match (held, slot) {
        (None, None) => (None, None),
        (None, Some(stack)) => (None, Some(stack)),
        (Some(hand), None) => (Some(hand), None),
        (Some(hand), Some(stack)) => if hand.spec_item() == stack.spec_item() {
            let capacity = stack.spec_item().spec_max_stack_size() - stack.spec_count();
            let moved = if capacity < hand.spec_count() {
                capacity
            } else {
                hand.spec_count() as int
            };
            (
                Some(ItemStack::of(stack.spec_item(), stack.spec_count() + moved)),
                stack_or_empty(hand.spec_item(), hand.spec_count() - moved),
            )
        } else {
            (Some(hand), Some(stack))
        },
    }
}

/// Right click on a slot while the cursor holds `held`: with an empty cursor,
/// pick up the larger half; otherwise put one item down where it fits.
pub open spec fn right_click_result(slot: Option<ItemStack>, held: Option<ItemStack>) -> (
    Option<ItemStack>,
    Option<ItemStack>,
) {
    match held {
        None => match slot {
            None => (None, None),
            Some(stack) => (
                stack_or_empty(stack.spec_item(), stack.spec_count() as int / 2),
                Some(ItemStack::of(stack.spec_item(), (stack.spec_count() + 1) / 2)),
            ),
        },
        Some(hand) => match slot {
            None => (Some(ItemStack::of(hand.spec_item(), 1)), stack_or_empty(hand.spec_item(), hand.spec_count() - 1)),
            Some(stack) => if stack.spec_item() == hand.spec_item() && stack.spec_count()
                < stack.spec_item().spec_max_stack_size() {
                (
                    Some(ItemStack::of(stack.spec_item(), stack.spec_count() + 1)),
                    stack_or_empty(hand.spec_item(), hand.spec_count() - 1),
                )
            } else {
                (Some(stack), Some(hand))
            },
        },
    }
}

proof fn lemma_left_click(slot: Option<ItemStack>, held: Option<ItemStack>)
    requires
        slot_valid(slot),
        slot_valid(held),
    ensures
        slot_valid(left_click_result(slot, held).0),
        slot_valid(left_click_result(slot, held).1),
        forall|k: ItemKind|
            amount_of(left_click_result(slot, held).0, k) + amount_of(
                left_click_result(slot, held).1,
                k,
            ) == amount_of(slot, k) + amount_of(held, k),
{
    match (held, slot) {
        (Some(hand), Some(stack)) => {
            assert(hand.valid());
            assert(stack.valid());
        },
        _ => {},
    }
}

proof fn lemma_right_click(slot: Option<ItemStack>, held: Option<ItemStack>)
    requires
        slot_valid(slot),
        slot_valid(held),
    ensures
        slot_valid(right_click_result(slot, held).0),
        slot_valid(right_click_result(slot, held).1),
        forall|k: ItemKind|
            amount_of(right_click_result(slot, held).0, k) + amount_of(
                right_click_result(slot, held).1,
                k,
            ) == amount_of(slot, k) + amount_of(held, k),
{
    match held {
        Some(hand) => {
            assert(hand.valid());
        },
        None => {},
    }
    match slot {
        Some(stack) => {
            assert(stack.valid());
        },
        None => {},
    }
}

/// Double click with a held stack: gathers matching items from slots `i..`, in
/// slot order, until the held stack is full. Returns the slots and the new held count.
pub open spec fn collect_from(slots: Seq<Option<ItemStack>>, i: int, item: ItemKind, held: int) -> (
    Seq<Option<ItemStack>>,
    int,
)
    decreases slots.len() - i,
{
    if i < 0 || i >= slots.len() {
        (slots, held)
    } else {
        match slots[i] {
            Some(stack) => if stack.spec_item() == item {
                let capacity = item.spec_max_stack_size() - held;
                let moved = if capacity < stack.spec_count() {
                    capacity
                } else {
                    stack.spec_count() as int
                };
                collect_from(
                    slots.update(i, stack_or_empty(item, stack.spec_count() - moved)),
                    i + 1,
                    item,
                    held + moved,
                )
            } else {
                collect_from(slots, i + 1, item, held)
            },
            None => collect_from(slots, i + 1, item, held),
        }
    }
}

/// Right-button drag: one held item into each visited slot (from `i` on) that is
/// empty or holds a non-full stack of the same kind, while items remain.
pub open spec fn one_each_from(
    slots: Seq<Option<ItemStack>>,
    visited: Seq<bool>,
    i: int,
    item: ItemKind,
    held: int,
) -> (Seq<Option<ItemStack>>, int)
    decreases slots.len() - i,
{
    if i < 0 || i >= slots.len() {
        (slots, held)
    } else if i >= visited.len() || !visited[i] || held <= 0 {
        one_each_from(slots, visited, i + 1, item, held)
    } else {
        match slots[i] {
            None => one_each_from(
                slots.update(i, Some(ItemStack::of(item, 1))),
                visited,
                i + 1,
                item,
                held - 1,
            ),
            Some(stack) => if stack.spec_item() == item && stack.spec_count() < item.spec_max_stack_size() {
                one_each_from(
                    slots.update(i, Some(ItemStack::of(item, stack.spec_count() + 1))),
                    visited,
                    i + 1,
                    item,
                    held - 1,
                )
            } else {
                one_each_from(slots, visited, i + 1, item, held)
            },
        }
    }
}

/// Whether a visited slot can take more items of `item`.
pub open spec fn accepts(slot: Option<ItemStack>, item: ItemKind) -> bool {
    match slot {
        None => true,
        Some(stack) => stack.spec_item() == item && stack.spec_count() < item.spec_max_stack_size(),
    }
}

/// Visited slots among the first `n` that can take more items of `item`.
pub open spec fn compatible_upto(
    slots: Seq<Option<ItemStack>>,
    visited: Seq<bool>,
    item: ItemKind,
    n: int,
) -> int
    decreases n,
{
    if n <= 0 {
        0
    } else {
        compatible_upto(slots, visited, item, n - 1) + if visited[n - 1] && accepts(
            slots[n - 1],
            item,
        ) {
            1int
        } else {
            0
        }
    }
}

/// Left-button drag: up to `per` held items into each visited slot (from `i` on)
/// that is empty or holds the same kind, bounded by its room, while items remain.
pub open spec fn even_from(
    slots: Seq<Option<ItemStack>>,
    visited: Seq<bool>,
    i: int,
    item: ItemKind,
    held: int,
    per: int,
) -> (Seq<Option<ItemStack>>, int)
    decreases slots.len() - i,
{
    if i < 0 || i >= slots.len() {
        (slots, held)
    } else if i >= visited.len() || !visited[i] || held <= 0 {
        even_from(slots, visited, i + 1, item, held, per)
    } else {
        match slots[i] {
            None => {
                let amount = if per < held {
                    per
                } else {
                    held
                };
                even_from(
                    slots.update(i, Some(ItemStack::of(item, amount))),
                    visited,
                    i + 1,
                    item,
                    held - amount,
                    per,
                )
            },
            Some(stack) => if stack.spec_item() == item {
                let capacity = item.spec_max_stack_size() - stack.spec_count();
                let bounded = if per < capacity {
                    per
                } else {
                    capacity
                };
                let amount = if bounded < held {
                    bounded
                } else {
                    held
                };
                even_from(
                    slots.update(i, Some(ItemStack::of(item, stack.spec_count() + amount))),
                    visited,
                    i + 1,
                    item,
                    held - amount,
                    per,
                )
            } else {
                even_from(slots, visited, i + 1, item, held, per)
            },
        }
    }
}

/// Slots `a` and `b` exchanged; out-of-range or equal indices change nothing.
pub open spec fn swapped(slots: Seq<Option<ItemStack>>, a: int, b: int) -> Seq<Option<ItemStack>> {
    if a < 0 || b < 0 || a >= INVENTORY_SIZE || b >= INVENTORY_SIZE || a == b {
        slots
    } else {
        slots.update(a, slots[b]).update(b, slots[a])
    }
}

/// `count` items make a stack of exactly that many items of `item` when `count`
/// is positive, and nothing otherwise.
pub proof fn lemma_stack_or_empty_law(item: ItemKind, count: int)
    requires
        count <= 255,
    ensures
        stack_or_empty(item, count) is Some <==> count > 0,
        stack_or_empty(item, count) matches Some(s) ==> s.spec_item() == item && s.spec_count() == count,
        amount_of(stack_or_empty(item, count), item) == if count > 0 {
            count
        } else {
            0
        },
{
    if count > 0 {
        lemma_stack_of(item, count);
    }
}

/// Swapping two different slots puts each one's contents in the other and
/// leaves every other slot alone.
pub proof fn lemma_swap_law(slots: Seq<Option<ItemStack>>, a: int, b: int)
    requires
        slots.len() == INVENTORY_SIZE,
        0 <= a < INVENTORY_SIZE,
        0 <= b < INVENTORY_SIZE,
    ensures
        swapped(slots, a, b)[a] == slots[b],
        swapped(slots, a, b)[b] == slots[a],
        swapped(slots, a, b).len() == slots.len(),
        forall|j: int| 0 <= j < slots.len() && j != a && j != b ==> #[trigger] swapped(slots, a, b)[j] == slots[j],
{
}

/// Swapping the same two slots twice restores the inventory.
pub proof fn lemma_swap_twice(slots: Seq<Option<ItemStack>>, a: int, b: int)
    requires
        slots.len() == INVENTORY_SIZE,
    ensures
        swapped(swapped(slots, a, b), a, b) == slots,
{
    assert(swapped(swapped(slots, a, b), a, b) =~= slots);
}

/// Clicking a slot twice with the left button puts the slot and the cursor
/// back as they were, unless the first click merged two stacks of one kind.
pub proof fn lemma_left_click_twice(slot: Option<ItemStack>, held: Option<ItemStack>)
    requires
        !(slot matches Some(s) && held matches Some(h) && s.spec_item() == h.spec_item()),
    ensures
        ({
            let (slot1, held1) = left_click_result(slot, held);
            left_click_result(slot1, held1) == (slot, held)
        }),
{
}

/// Shift-click on slot `index`: its stack is placed (see [`placed`]) into the
/// main inventory when it sits in the hotbar, else into the hotbar; what does
/// not fit stays in the slot. Empty slots and indices past the end change nothing.
pub open spec fn quick_move_result(slots: Seq<Option<ItemStack>>, index: int) -> Seq<Option<ItemStack>> {
    if index < 0 || index >= INVENTORY_SIZE || slots[index] is None {
        slots
    } else {
        let stack = slots[index].unwrap();
        let (lo, hi) = if index < HOTBAR_SIZE {
            (HOTBAR_SIZE as int, INVENTORY_SIZE as int)
        } else {
            (0int, HOTBAR_SIZE as int)
        };
        let (after, rest) = placed(slots.update(index, None), stack.spec_item(), stack.spec_count() as int, lo, hi);
        match rest {
            Some(r) => after.update(index, Some(r)),
            None => after,
        }
    }
}

/// The slots and cursor after a drag over the `visited` slots in `mode`.
pub open spec fn drag_result(
    slots: Seq<Option<ItemStack>>,
    visited: Seq<bool>,
    held: Option<ItemStack>,
    mode: DragMode,
) -> (Seq<Option<ItemStack>>, Option<ItemStack>) {
    match held {
        None => (slots, None),
        Some(hand) => match mode {
            DragMode::OneEach => {
                let (after, left) = one_each_from(slots, visited, 0, hand.spec_item(), hand.spec_count() as int);
                (after, stack_or_empty(hand.spec_item(), left))
            },
            DragMode::Even => {
                let compatible = compatible_upto(slots, visited, hand.spec_item(), slots.len() as int);
                if compatible == 0 || (hand.spec_count() as int) / compatible == 0 {
                    (slots, held)
                } else {
                    let (after, left) = even_from(
                        slots,
                        visited,
                        0,
                        hand.spec_item(),
                        hand.spec_count() as int,
                        (hand.spec_count() as int) / compatible,
                    );
                    (after, stack_or_empty(hand.spec_item(), left))
                }
            },
        },
    }
}

proof fn lemma_collect_full(slots: Seq<Option<ItemStack>>, i: int, item: ItemKind)
    requires
        stacks_valid(slots),
        item.spec_is_valid(),
    ensures
        collect_from(slots, i, item, BLOCK_STACK_SIZE as int) == (slots, BLOCK_STACK_SIZE as int),
    decreases slots.len() - i,
{
    if i < 0 || i >= slots.len() {
    } else {
        match slots[i] {
            Some(stack) => {
                if stack.item == item {
                    assert(stack.valid());
                    assert(stack_or_empty(item, stack.count - 0) == Some(stack));
                    assert(slots.update(i, Some(stack)) =~= slots);
                }
            },
            None => {},
        }
        lemma_collect_full(slots, i + 1, item);
    }
}

/// Gathering onto a held stack of `item` takes items only from stacks of
/// `item` at or after slot `i`, and goes in slot order: a stack loses items
/// only when every earlier stack of `item` there was emptied, and a stack that
/// loses items without being emptied keeps the rest.
pub proof fn lemma_collect_order_law(slots: Seq<Option<ItemStack>>, i: int, item: ItemKind, held: int)
    requires
        stacks_valid(slots),
        item.spec_is_valid(),
        0 <= i,
        0 < held <= BLOCK_STACK_SIZE,
    ensures
        ({
            let (after, total) = collect_from(slots, i, item, held);
            &&& after.len() == slots.len()
            &&& forall|j: int|
                0 <= j < slots.len() && (j < i || !(slots[j] matches Some(s) && s.spec_item() == item))
                    ==> #[trigger] after[j] == slots[j]
            &&& forall|j: int|
                i <= j < slots.len() && (slots[j] matches Some(s) && s.spec_item() == item) ==> (
                #[trigger] after[j] is None || (after[j] matches Some(t) && t.spec_item() == item
                    && t.spec_count() <= slots[j].unwrap().spec_count()))
            &&& forall|j1: int, j2: int|
                i <= j1 < j2 < slots.len() && (slots[j1] matches Some(s) && s.spec_item() == item)
                    && #[trigger] after[j2] != slots[j2] ==> #[trigger] after[j1] is None
        }),
    decreases slots.len() - i,
{
    if i >= slots.len() {
    } else {
        match slots[i] {
            Some(stack) => {
                assert(stack.valid());
                if stack.spec_item() == item {
                    let capacity = item.spec_max_stack_size() - held;
                    let moved = if capacity < stack.spec_count() {
                        capacity
                    } else {
                        stack.spec_count() as int
                    };
                    let next = stack_or_empty(item, stack.spec_count() - moved);
                    if next is Some {
                        assert(next.unwrap().valid());
                        lemma_stack_of(item, stack.spec_count() - moved);
                    }
                    lemma_stacks_valid_update(slots, i, next);
                    let updated = slots.update(i, next);
                    if held + moved == BLOCK_STACK_SIZE && moved < stack.spec_count() {
                        lemma_collect_full(updated, i + 1, item);
                    } else {
                        assert(moved == stack.spec_count());
                        assert(next is None);
                        if held + moved < BLOCK_STACK_SIZE || held + moved == BLOCK_STACK_SIZE {
                            if held + moved == BLOCK_STACK_SIZE {
                                lemma_collect_full(updated, i + 1, item);
                            } else {
                                lemma_collect_order_law(updated, i + 1, item, held + moved);
                            }
                        }
                    }
                    let (after, total) = collect_from(updated, i + 1, item, held + moved);
                    assert(collect_from(slots, i, item, held) == (after, total));
                    assert forall|j: int| i < j < slots.len() implies #[trigger] updated[j] == slots[j] by {}
                } else {
                    lemma_collect_order_law(slots, i + 1, item, held);
                }
            },
            None => {
                lemma_collect_order_law(slots, i + 1, item, held);
            },
        }
    }
}

proof fn lemma_collect(slots: Seq<Option<ItemStack>>, i: int, item: ItemKind, held: int)
    requires
        stacks_valid(slots),
        item.spec_is_valid(),
        0 < held <= BLOCK_STACK_SIZE,
    ensures
        ({
            let (after, total) = collect_from(slots, i, item, held);
            &&& stacks_valid(after)
            &&& after.len() == slots.len()
            &&& held <= total <= BLOCK_STACK_SIZE
            &&& forall|k: ItemKind|
                #![trigger count_in(after, k)]
                count_in(after, k) + (if k == item {
                    total
                } else {
                    0
                }) == count_in(slots, k) + (if k == item {
                    held
                } else {
                    0
                })
        }),
    decreases slots.len() - i,
{
    if i < 0 || i >= slots.len() {
    } else {
        match slots[i] {
            Some(stack) => {
                if stack.item == item {
                    assert(stack.valid());
                    let capacity = item.spec_max_stack_size() - held;
                    let moved = if capacity < stack.count {
                        capacity
                    } else {
                        stack.count as int
                    };
                    let next = stack_or_empty(item, stack.count - moved);
                    assert(slot_valid(next));
                    lemma_stacks_valid_update(slots, i, next);
                    let updated = slots.update(i, next);
                    lemma_collect(updated, i + 1, item, held + moved);
                    assert forall|k: ItemKind| #![trigger count_in(updated, k)]
                        count_in(updated, k) == count_in(slots, k) - (if k == item {
                            moved
                        } else {
                            0
                        }) by {
                        lemma_count_in_update(slots, i, next, k);
                    }
                } else {
                    lemma_collect(slots, i + 1, item, held);
                }
            },
            None => {
                lemma_collect(slots, i + 1, item, held);
            },
        }
    }
}

proof fn lemma_one_each(
    slots: Seq<Option<ItemStack>>,
    visited: Seq<bool>,
    i: int,
    item: ItemKind,
    held: int,
)
    requires
        stacks_valid(slots),
        item.spec_is_valid(),
        0 <= held <= BLOCK_STACK_SIZE,
    ensures
        ({
            let (after, left) = one_each_from(slots, visited, i, item, held);
            &&& stacks_valid(after)
            &&& after.len() == slots.len()
            &&& 0 <= left <= held
            &&& forall|k: ItemKind|
                #![trigger count_in(after, k)]
                count_in(after, k) + (if k == item {
                    left
                } else {
                    0
                }) == count_in(slots, k) + (if k == item {
                    held
                } else {
                    0
                })
        }),
    decreases slots.len() - i,
{
    if i < 0 || i >= slots.len() {
    } else if i >= visited.len() || !visited[i] || held <= 0 {
        lemma_one_each(slots, visited, i + 1, item, held);
    } else {
        match slots[i] {
            None => {
                let next = Some(ItemStack::of(item, 1));
                assert(ItemStack::of(item, 1).valid());
                lemma_stacks_valid_update(slots, i, next);
                let updated = slots.update(i, next);
                lemma_one_each(updated, visited, i + 1, item, held - 1);
                assert forall|k: ItemKind| #![trigger count_in(updated, k)]
                    count_in(updated, k) == count_in(slots, k) + (if k == item {
                        1int
                    } else {
                        0
                    }) by {
                    lemma_count_in_update(slots, i, next, k);
                }
            },
            Some(stack) => {
                assert(stack.valid());
                if stack.item == item && stack.count < item.spec_max_stack_size() {
                    let next = Some(ItemStack::of(item, stack.count + 1));
                    assert(ItemStack::of(item, stack.count + 1).valid());
                    lemma_stacks_valid_update(slots, i, next);
                    let updated = slots.update(i, next);
                    lemma_one_each(updated, visited, i + 1, item, held - 1);
                    assert forall|k: ItemKind| #![trigger count_in(updated, k)]
                        count_in(updated, k) == count_in(slots, k) + (if k == item {
                            1int
                        } else {
                            0
                        }) by {
                        lemma_count_in_update(slots, i, next, k);
                    }
                } else {
                    lemma_one_each(slots, visited, i + 1, item, held);
                }
            },
        }
    }
}

proof fn lemma_even(
    slots: Seq<Option<ItemStack>>,
    visited: Seq<bool>,
    i: int,
    item: ItemKind,
    held: int,
    per: int,
)
    requires
        stacks_valid(slots),
        item.spec_is_valid(),
        0 <= held <= BLOCK_STACK_SIZE,
        per > 0,
    ensures
        ({
            let (after, left) = even_from(slots, visited, i, item, held, per);
            &&& stacks_valid(after)
            &&& after.len() == slots.len()
            &&& 0 <= left <= held
            &&& forall|k: ItemKind|
                #![trigger count_in(after, k)]
                count_in(after, k) + (if k == item {
                    left
                } else {
                    0
                }) == count_in(slots, k) + (if k == item {
                    held
                } else {
                    0
                })
        }),
    decreases slots.len() - i,
{
    if i < 0 || i >= slots.len() {
    } else if i >= visited.len() || !visited[i] || held <= 0 {
        lemma_even(slots, visited, i + 1, item, held, per);
    } else {
        match slots[i] {
            None => {
                let amount = if per < held {
                    per
                } else {
                    held
                };
                let next = Some(ItemStack::of(item, amount));
                assert(ItemStack::of(item, amount).valid());
                lemma_stacks_valid_update(slots, i, next);
                let updated = slots.update(i, next);
                lemma_even(updated, visited, i + 1, item, held - amount, per);
                assert forall|k: ItemKind| #![trigger count_in(updated, k)]
                    count_in(updated, k) == count_in(slots, k) + (if k == item {
                        amount
                    } else {
                        0
                    }) by {
                    lemma_count_in_update(slots, i, next, k);
                }
            },
            Some(stack) => {
                assert(stack.valid());
                if stack.item == item {
                    let capacity = item.spec_max_stack_size() - stack.count;
                    let bounded = if per < capacity {
                        per
                    } else {
                        capacity
                    };
                    let amount = if bounded < held {
                        bounded
                    } else {
                        held
                    };
                    let next = Some(ItemStack::of(item, stack.count + amount));
                    assert(ItemStack::of(item, stack.count + amount).valid());
                    lemma_stacks_valid_update(slots, i, next);
                    let updated = slots.update(i, next);
                    lemma_even(updated, visited, i + 1, item, held - amount, per);
                    assert forall|k: ItemKind| #![trigger count_in(updated, k)]
                        count_in(updated, k) == count_in(slots, k) + (if k == item {
                            amount
                        } else {
                            0
                        }) by {
                        lemma_count_in_update(slots, i, next, k);
                    }
                } else {
                    lemma_even(slots, visited, i + 1, item, held, per);
                }
            },
        }
    }
}

/// The player's 36 slots (nine hotbar slots first) and the selected hotbar slot.
pub struct PlayerInventory {
    slots: Vec<Option<ItemStack>>,
    selected_hotbar: usize,
}

impl PlayerInventory {
    /// The storage invariant: 36 slots, a hotbar selection below nine, and valid stacks.
    pub open spec fn wf(&self) -> bool {
        &&& self.slots().len() == INVENTORY_SIZE
        &&& self.selected() < HOTBAR_SIZE
        &&& stacks_valid(self.slots())
    }

    /// The slot contents, hotbar first.
    pub closed spec fn slots(&self) -> Seq<Option<ItemStack>> {
        self.slots@
    }

    /// The selected hotbar slot.
    pub closed spec fn selected(&self) -> int {
        self.selected_hotbar as int
    }

    /// Reports the storage invariant: 36 slots and a hotbar selection below nine.
    pub fn len(&self) -> (n: usize)
        requires
            self.wf(),
        ensures
            n == self.slots().len(),
            n == INVENTORY_SIZE,
            0 <= self.selected() < HOTBAR_SIZE,
            stacks_valid(self.slots()),
    {
        self.slots.len()
    }

    /// The stack in a slot; `None` for an empty slot or an index past the end.
    pub fn slot(&self, index: usize) -> (stack: Option<ItemStack>)
        ensures
            stack == if index < self.slots().len() {
                self.slots()[index as int]
            } else {
                None
            },
    {
        if index < self.slots.len() {
            self.slots[index]
        } else {
            None
        }
    }

    pub fn selected_hotbar(&self) -> (index: usize)
        requires
            self.wf(),
        ensures
            index == self.selected(),
            index < HOTBAR_SIZE,
    {
        self.selected_hotbar
    }

    /// The stack in the selected hotbar slot.
    pub fn selected_stack(&self) -> (stack: Option<ItemStack>)
        requires
            self.wf(),
        ensures
            stack == self.slots()[self.selected()],
    {
        self.slots[self.selected_hotbar]
    }

    /// Selects a hotbar slot; indices past the hotbar select its last slot.
    pub fn set_selected_hotbar(&mut self, index: usize)
        requires
            old(self).wf(),
        ensures
            final(self).wf(),
            final(self).selected() == if index < HOTBAR_SIZE {
                index as int
            } else {
                HOTBAR_SIZE - 1
            },
            final(self).slots() == old(self).slots(),
    {
        self.selected_hotbar = if index < HOTBAR_SIZE {
            index
        } else {
            HOTBAR_SIZE - 1
        };
    }

    /// Exchanges two slots; out-of-range or equal indices change nothing.
    pub fn swap_slots(&mut self, a: usize, b: usize)
        requires
            old(self).wf(),
        ensures
            final(self).wf(),
            final(self).selected() == old(self).selected(),
            final(self).slots() == swapped(old(self).slots(), a as int, b as int),
    {
        if a >= INVENTORY_SIZE || b >= INVENTORY_SIZE || a == b {
            return;
        }
        let first = self.slots[a];
        let second = self.slots[b];
        proof {
            assert(self.slots@[a as int] == first);
            assert(self.slots@[b as int] == second);
            lemma_stacks_valid_update(self.slots@, a as int, second);
            lemma_stacks_valid_update(self.slots@.update(a as int, second), b as int, first);
        }
        self.slots[a] = second;
        self.slots[b] = first;
    }

    /// Moves `stack` into slots `lo..hi` (see [`placed`]) and returns what did not fit.
    fn move_stack_into_range(&mut self, stack: ItemStack, lo: usize, hi: usize) -> (rest: Option<
        ItemStack,
    >)
        requires
            old(self).wf(),
            lo <= hi <= INVENTORY_SIZE,
        ensures
            final(self).wf(),
            final(self).selected() == old(self).selected(),
            (final(self).slots(), rest) == placed(
                old(self).slots(),
                stack.spec_item(),
                stack.spec_count() as int,
                lo as int,
                hi as int,
            ),
    {
        proof {
            use_type_invariant(&stack);
        }
        let ghost start = self.slots@;
        let item = stack.item;
        let mut remaining: u8 = stack.count;
        let mut i: usize = lo;
        while i < hi
            invariant
                lo <= i <= hi,
                hi <= INVENTORY_SIZE,
                self.wf(),
                self.selected() == old(self).selected(),
                start == old(self).slots(),
                item == stack.spec_item(),
                item.spec_is_valid(),
                0 < remaining <= BLOCK_STACK_SIZE,
                fill_matching(self.slots@, i as int, hi as int, item, remaining as int)
                    == fill_matching(start, lo as int, hi as int, item, stack.spec_count() as int),
            decreases hi - i,
        {
            match self.slots[i] {
                Some(existing) => {
                    if existing.item == item {
                        proof {
                            use_type_invariant(&existing);
                        }
                        let capacity = item.max_stack_size() - existing.count;
                        let moved = if capacity < remaining {
                            capacity
                        } else {
                            remaining
                        };
                        let next = ItemStack { item, count: existing.count + moved };
                        proof {
                            lemma_stacks_valid_update(self.slots@, i as int, Some(next));
                        }
                        self.slots.set(i, Some(next));
                        remaining = remaining - moved;
                        if remaining == 0 {
                            proof {
                                lemma_fill_zero(self.slots@, i as int + 1, hi as int, item);
                            }
                            return None;
                        }
                    }
                },
                None => {},
            }
            i = i + 1;
        }
        let ghost filled = self.slots@;
        assert(fill_matching(filled, i as int, hi as int, item, remaining as int) == (
            filled,
            remaining as int,
        ));
        let mut j: usize = lo;
        while j < hi
            invariant
                lo <= j <= hi,
                hi <= INVENTORY_SIZE,
                self.wf(),
                self.slots@ == filled,
                self.selected() == old(self).selected(),
                item == stack.spec_item(),
                item.spec_is_valid(),
                0 < remaining <= BLOCK_STACK_SIZE,
                first_empty(filled, j as int, hi as int) == first_empty(
                    filled,
                    lo as int,
                    hi as int,
                ),
                start == old(self).slots(),
                fill_matching(start, lo as int, hi as int, item, stack.spec_count() as int) == (
                    filled,
                    remaining as int,
                ),
            decreases hi - j,
        {
            if self.slots[j].is_none() {
                let rest = ItemStack { item, count: remaining };
                proof {
                    lemma_stacks_valid_update(self.slots@, j as int, Some(rest));
                }
                self.slots.set(j, Some(rest));
                return None;
            }
            j = j + 1;
        }
        Some(ItemStack { item, count: remaining })
    }

    /// Adds a stack: first onto matching stacks in slot order, then into the first
    /// empty slot. Returns the items that found no room.
    pub fn insert(&mut self, stack: ItemStack) -> (rest: Option<ItemStack>)
        requires
            old(self).wf(),
        ensures
            final(self).wf(),
            final(self).selected() == old(self).selected(),
            (final(self).slots(), rest) == placed(
                old(self).slots(),
                stack.spec_item(),
                stack.spec_count() as int,
                0,
                INVENTORY_SIZE as int,
            ),
            rest matches Some(r) ==> r.spec_item() == stack.spec_item(),
            rest is None <==> (stack.spec_count() <= free_room(
                old(self).slots(),
                0,
                INVENTORY_SIZE as int,
                stack.spec_item(),
            ) || exists|j: int| 0 <= j < INVENTORY_SIZE && #[trigger] old(self).slots()[j] is None),
            rest matches Some(r) ==> r.spec_count() == stack.spec_count() - free_room(
                old(self).slots(),
                0,
                INVENTORY_SIZE as int,
                stack.spec_item(),
            ) && forall|j: int| 0 <= j < INVENTORY_SIZE ==> #[trigger] old(self).slots()[j] is Some,
            slot_valid(rest),
            forall|k: ItemKind|
                #![trigger count_in(final(self).slots(), k)]
                count_in(final(self).slots(), k) + amount_of(rest, k) == count_in(
                    old(self).slots(),
                    k,
                ) + amount_of(Some(stack), k),
    {
        proof {
            use_type_invariant(&stack);
            lemma_placed(self.slots@, stack, 0, INVENTORY_SIZE as int);
            lemma_placed_leftover(
                self.slots@,
                stack.spec_item(),
                stack.spec_count() as int,
                0,
                INVENTORY_SIZE as int,
            );
        }
        self.move_stack_into_range(stack, 0, INVENTORY_SIZE)
    }

    /// Shift-click: moves a hotbar stack into the main inventory, or a main
    /// inventory stack into the hotbar; what does not fit stays in its slot.
    pub fn quick_move(&mut self, index: usize)
        requires
            old(self).wf(),
        ensures
            final(self).wf(),
            final(self).selected() == old(self).selected(),
            final(self).slots() == quick_move_result(old(self).slots(), index as int),
            forall|k: ItemKind|
                #![trigger count_in(final(self).slots(), k)]
                count_in(final(self).slots(), k) == count_in(old(self).slots(), k),
            index < INVENTORY_SIZE && old(self).slots()[index as int] is Some ==> ({
                let s = old(self).slots()[index as int].unwrap();
                let lo = if index < HOTBAR_SIZE {
                    HOTBAR_SIZE as int
                } else {
                    0int
                };
                let hi = if index < HOTBAR_SIZE {
                    INVENTORY_SIZE as int
                } else {
                    HOTBAR_SIZE as int
                };
                let room = free_room(old(self).slots(), lo, hi, s.spec_item());
                &&& (final(self).slots()[index as int] is None <==> (s.spec_count() <= room || exists|j: int|
                    lo <= j < hi && #[trigger] old(self).slots()[j] is None))
                &&& final(self).slots()[index as int] matches Some(r) ==> r.spec_item() == s.spec_item()
                    && r.spec_count() == s.spec_count() - room
            }),
    {
        if index >= INVENTORY_SIZE {
            return;
        }
        let stack = match self.slots[index] {
            Some(stack) => stack,
            None => return,
        };
        proof {
            use_type_invariant(&stack);
        }
        let ghost start = self.slots@;
        proof {
            lemma_stacks_valid_update(self.slots@, index as int, None);
        }
        self.slots.set(index, None);
        let ghost emptied = self.slots@;
        proof {
            assert forall|k: ItemKind| #![trigger count_in(emptied, k)]
                count_in(emptied, k) == count_in(start, k) - amount_of(Some(stack), k) by {
                lemma_count_in_update(start, index as int, None, k);
            }
        }
        let (lo, hi) = if index < HOTBAR_SIZE {
            (HOTBAR_SIZE, INVENTORY_SIZE)
        } else {
            (0, HOTBAR_SIZE)
        };
        proof {
            lemma_placed(emptied, stack, lo as int, hi as int);
            lemma_placed_leftover(emptied, stack.spec_item(), stack.spec_count() as int, lo as int, hi as int);
            lemma_free_room_frame(start, lo as int, hi as int, stack.spec_item(), index as int, None);
            assert forall|j: int| #![trigger emptied[j]] #![trigger start[j]] lo <= j < hi implies (emptied[j] is None) == (start[j] is None) by {
                assert(j != index);
            }
            lemma_placed_keeps_outside(emptied, stack.spec_item(), stack.spec_count() as int, lo as int, hi as int, index as int);
        }
        let rest = self.move_stack_into_range(stack, lo, hi);
        let ghost after = self.slots@;
        match rest {
            Some(leftover) => {
                proof {
                    use_type_invariant(&leftover);
                    lemma_stacks_valid_update(self.slots@, index as int, Some(leftover));
                    assert forall|k: ItemKind| #![trigger count_in(after.update(index as int, Some(leftover)), k)]
                        count_in(after.update(index as int, Some(leftover)), k) == count_in(after, k) - amount_of(after[index as int], k)
                            + amount_of(Some(leftover), k) by {
                        lemma_count_in_update(after, index as int, Some(leftover), k);
                    }
                    assert(after[index as int] is None) by {
                        lemma_placed_keeps_outside(emptied, stack.spec_item(), stack.spec_count() as int, lo as int, hi as int, index as int);
                    }
                }
                self.slots.set(index, Some(leftover));
            },
            None => {},
        }
    }

    /// Replaces one slot and proves the bookkeeping facts about the new slots.
    fn put_slot(&mut self, index: usize, value: Option<ItemStack>)
        requires
            old(self).wf(),
            index < INVENTORY_SIZE,
            slot_valid(value),
        ensures
            final(self).wf(),
            final(self).selected() == old(self).selected(),
            final(self).slots() == old(self).slots().update(index as int, value),
            forall|k: ItemKind|
                #![trigger count_in(final(self).slots(), k)]
                count_in(final(self).slots(), k) == count_in(old(self).slots(), k) - amount_of(
                    old(self).slots()[index as int],
                    k,
                ) + amount_of(value, k),
    {
        proof {
            lemma_stacks_valid_update(self.slots@, index as int, value);
            assert forall|k: ItemKind| #![trigger count_in(self.slots@.update(index as int, value), k)]
                count_in(self.slots@.update(index as int, value), k) == count_in(self.slots@, k)
                    - amount_of(self.slots@[index as int], k) + amount_of(value, k) by {
                lemma_count_in_update(self.slots@, index as int, value, k);
            }
        }
        self.slots.set(index, value);
    }

    /// Left click on a slot: pick up, put down, merge as much as fits, or swap.
    pub fn left_click(&mut self, index: usize, cursor: &mut Option<ItemStack>)
        requires
            old(self).wf(),
            slot_valid(*old(cursor)),
        ensures
            final(self).wf(),
            slot_valid(*final(cursor)),
            final(self).selected() == old(self).selected(),
            index >= INVENTORY_SIZE ==> final(self).slots() == old(self).slots() && *final(cursor)
                == *old(cursor),
            index < INVENTORY_SIZE ==> ({
                let (slot, held) = left_click_result(old(self).slots()[index as int], *old(cursor));
                final(self).slots() == old(self).slots().update(index as int, slot) && *final(cursor)
                    == held
            }),
            forall|k: ItemKind|
                #![trigger total_with_cursor(final(self).slots(), *final(cursor), k)]
                total_with_cursor(final(self).slots(), *final(cursor), k) == total_with_cursor(
                    old(self).slots(),
                    *old(cursor),
                    k,
                ),
    {
        if index >= INVENTORY_SIZE {
            return;
        }
        let held = *cursor;
        let slot = self.slots[index];
        proof {
            lemma_left_click(slot, held);
        }
        let (next_slot, next_held): (Option<ItemStack>, Option<ItemStack>) = match (held, slot) {
            (None, None) => (None, None),
            (None, Some(stack)) => (None, Some(stack)),
            (Some(hand), None) => (Some(hand), None),
            (Some(hand), Some(stack)) => {
                proof {
                    use_type_invariant(&hand);
                    use_type_invariant(&stack);
                }
                if hand.item == stack.item {
                    let capacity = stack.item.max_stack_size() - stack.count;
                    let moved = if capacity < hand.count {
                        capacity
                    } else {
                        hand.count
                    };
                    let merged = ItemStack { item: stack.item, count: stack.count + moved };
                    let left = hand.count - moved;
                    if left > 0 {
                        (Some(merged), Some(ItemStack { item: hand.item, count: left }))
                    } else {
                        (Some(merged), None)
                    }
                } else {
                    (Some(hand), Some(stack))
                }
            },
        };
        assert((next_slot, next_held) == left_click_result(slot, held));
        self.put_slot(index, next_slot);
        *cursor = next_held;
    }

    /// Right click on a slot: with an empty cursor pick up the larger half of the
    /// stack; otherwise drop one held item where it fits.
    pub fn right_click(&mut self, index: usize, cursor: &mut Option<ItemStack>)
        requires
            old(self).wf(),
            slot_valid(*old(cursor)),
        ensures
            final(self).wf(),
            slot_valid(*final(cursor)),
            final(self).selected() == old(self).selected(),
            index >= INVENTORY_SIZE ==> final(self).slots() == old(self).slots() && *final(cursor)
                == *old(cursor),
            index < INVENTORY_SIZE ==> ({
                let (slot, held) = right_click_result(
                    old(self).slots()[index as int],
                    *old(cursor),
                );
                final(self).slots() == old(self).slots().update(index as int, slot) && *final(cursor)
                    == held
            }),
            forall|k: ItemKind|
                #![trigger total_with_cursor(final(self).slots(), *final(cursor), k)]
                total_with_cursor(final(self).slots(), *final(cursor), k) == total_with_cursor(
                    old(self).slots(),
                    *old(cursor),
                    k,
                ),
    {
        if index >= INVENTORY_SIZE {
            return;
        }
        let held = *cursor;
        let slot = self.slots[index];
        proof {
            lemma_right_click(slot, held);
        }
        let (next_slot, next_held): (Option<ItemStack>, Option<ItemStack>) = match held {
            None => match slot {
                None => (None, None),
                Some(stack) => {
                    proof {
                        use_type_invariant(&stack);
                    }
                    let taken = (stack.count + 1) / 2;
                    let remaining = stack.count / 2;
                    let picked = ItemStack { item: stack.item, count: taken };
                    if remaining > 0 {
                        (Some(ItemStack { item: stack.item, count: remaining }), Some(picked))
                    } else {
                        (None, Some(picked))
                    }
                },
            },
            Some(hand) => {
                proof {
                    use_type_invariant(&hand);
                }
                let left = hand.count - 1;
                let rest = if left > 0 {
                    Some(ItemStack { item: hand.item, count: left })
                } else {
                    None
                };
                match slot {
                    None => (Some(ItemStack { item: hand.item, count: 1 }), rest),
                    Some(stack) => {
                        proof {
                            use_type_invariant(&stack);
                        }
                        if stack.item == hand.item && stack.count < stack.item.max_stack_size() {
                            (Some(ItemStack { item: stack.item, count: stack.count + 1 }), rest)
                        } else {
                            (Some(stack), Some(hand))
                        }
                    },
                }
            },
        };
        assert((next_slot, next_held) == right_click_result(slot, held));
        self.put_slot(index, next_slot);
        *cursor = next_held;
    }

    /// Uses up `amount` items of the selected hotbar stack; `false` (and no
    /// change) when the slot holds fewer. Zero always succeeds.
    pub fn consume_selected(&mut self, amount: u8) -> (consumed: bool)
        requires
            old(self).wf(),
        ensures
            final(self).wf(),
            final(self).selected() == old(self).selected(),
            consumed == (amount == 0 || (old(self).slots()[old(self).selected()] matches Some(stack)
                && stack.spec_count() >= amount)),
            final(self).slots() == if amount == 0 || !consumed {
                old(self).slots()
            } else {
                let stack = old(self).slots()[old(self).selected()].unwrap();
                old(self).slots().update(
                    old(self).selected(),
                    stack_or_empty(stack.spec_item(), stack.spec_count() - amount),
                )
            },
            forall|k: ItemKind|
                #![trigger count_in(final(self).slots(), k)]
                count_in(final(self).slots(), k) == count_in(old(self).slots(), k) - (
                if consumed && amount > 0 && k == old(self).slots()[old(self).selected()].unwrap().spec_item() {
                    amount as int
                } else {
                    0
                }),
    {
        if amount == 0 {
            return true;
        }
        let index = self.selected_hotbar;
        let stack = match self.slots[index] {
            Some(stack) => stack,
            None => return false,
        };
        proof {
            use_type_invariant(&stack);
        }
        if stack.count < amount {
            return false;
        }
        let left = stack.count - amount;
        let next = if left > 0 {
            Some(ItemStack { item: stack.item, count: left })
        } else {
            None
        };
        self.put_slot(index, next);
        true
    }

    /// Double click with a held stack: gathers matching items from the slots, in
    /// slot order, until the held stack is full.
    pub fn collect_matching(&mut self, cursor: &mut Option<ItemStack>)
        requires
            old(self).wf(),
            slot_valid(*old(cursor)),
        ensures
            final(self).wf(),
            slot_valid(*final(cursor)),
            final(self).selected() == old(self).selected(),
            match *old(cursor) {
                None => final(self).slots() == old(self).slots() && *final(cursor) is None,
                Some(hand) => {
                    let (after, total) = collect_from(
                        old(self).slots(),
                        0,
                        hand.spec_item(),
                        hand.spec_count() as int,
                    );
                    final(self).slots() == after && *final(cursor) == Some(
                        ItemStack::of(hand.spec_item(), total),
                    )
                },
            },
            *old(cursor) matches Some(hand) ==> *final(cursor) == Some(
                ItemStack::of(
                    hand.spec_item(),
                    if hand.spec_count() + count_from(old(self).slots(), 0, hand.spec_item())
                        <= hand.spec_item().spec_max_stack_size() {
                        hand.spec_count() + count_from(old(self).slots(), 0, hand.spec_item())
                    } else {
                        hand.spec_item().spec_max_stack_size() as int
                    },
                ),
            ),
            forall|k: ItemKind|
                #![trigger total_with_cursor(final(self).slots(), *final(cursor), k)]
                total_with_cursor(final(self).slots(), *final(cursor), k) == total_with_cursor(
                    old(self).slots(),
                    *old(cursor),
                    k,
                ),
    {
        let hand = match *cursor {
            Some(hand) => hand,
            None => return,
        };
        proof {
            use_type_invariant(&hand);
            lemma_collect(self.slots@, 0, hand.item, hand.count as int);
            lemma_collect_total(self.slots@, 0, hand.item, hand.count as int);
        }
        let ghost start = self.slots@;
        let item = hand.item;
        let mut held: u8 = hand.count;
        let mut i: usize = 0;
        while i < INVENTORY_SIZE && held < item.max_stack_size()
            invariant
                i <= INVENTORY_SIZE,
                self.wf(),
                self.selected() == old(self).selected(),
                start == old(self).slots(),
                item == hand.spec_item(),
                item.spec_is_valid(),
                0 < held <= BLOCK_STACK_SIZE,
                collect_from(self.slots@, i as int, item, held as int) == collect_from(
                    start,
                    0,
                    item,
                    hand.spec_count() as int,
                ),
            decreases INVENTORY_SIZE - i,
        {
            match self.slots[i] {
                Some(stack) => {
                    if stack.item == item {
                        proof {
                            use_type_invariant(&stack);
                        }
                        let capacity = item.max_stack_size() - held;
                        let moved = if capacity < stack.count {
                            capacity
                        } else {
                            stack.count
                        };
                        held = held + moved;
                        let left = stack.count - moved;
                        let next = if left > 0 {
                            Some(ItemStack { item, count: left })
                        } else {
                            None
                        };
                        proof {
                            lemma_stacks_valid_update(self.slots@, i as int, next);
                        }
                        self.slots.set(i, next);
                    }
                },
                None => {},
            }
            i = i + 1;
        }
        proof {
            if held == BLOCK_STACK_SIZE {
                lemma_collect_full(self.slots@, i as int, item);
            }
        }
        *cursor = Some(ItemStack { item, count: held });
    }

    /// Ends a drag over the `visited` slots: in [`DragMode::OneEach`] one held
    /// item goes into each visited slot that can take it; in [`DragMode::Even`]
    /// the held count is split evenly (rounded down) over the visited slots that
    /// can take items. Items that were not placed stay on the cursor.
    pub fn distribute_drag(
        &mut self,
        cursor: &mut Option<ItemStack>,
        visited: &[bool; INVENTORY_SIZE],
        mode: DragMode,
    )
        requires
            old(self).wf(),
            slot_valid(*old(cursor)),
        ensures
            final(self).wf(),
            slot_valid(*final(cursor)),
            final(self).selected() == old(self).selected(),
            (final(self).slots(), *final(cursor)) == drag_result(
                old(self).slots(),
                visited@,
                *old(cursor),
                mode,
            ),
            forall|k: ItemKind|
                #![trigger total_with_cursor(final(self).slots(), *final(cursor), k)]
                total_with_cursor(final(self).slots(), *final(cursor), k) == total_with_cursor(
                    old(self).slots(),
                    *old(cursor),
                    k,
                ),
    {
        let hand = match *cursor {
            Some(hand) => hand,
            None => return,
        };
        proof {
            use_type_invariant(&hand);
        }
        let ghost start = self.slots@;
        let item = hand.item;
        let mut held: u8 = hand.count;
        match mode {
            DragMode::OneEach => {
                proof {
                    lemma_one_each(self.slots@, visited@, 0, item, held as int);
                }
                let mut i: usize = 0;
                while i < INVENTORY_SIZE
                    invariant
                        i <= INVENTORY_SIZE,
                        visited@.len() == INVENTORY_SIZE,
                        self.wf(),
                        self.selected() == old(self).selected(),
                        start == old(self).slots(),
                        item == hand.spec_item(),
                        item.spec_is_valid(),
                        0 <= held <= BLOCK_STACK_SIZE,
                        one_each_from(self.slots@, visited@, i as int, item, held as int)
                            == one_each_from(start, visited@, 0, item, hand.spec_count() as int),
                    decreases INVENTORY_SIZE - i,
                {
                    if visited[i] && held > 0 {
                        match self.slots[i] {
                            None => {
                                let next = Some(ItemStack { item, count: 1 });
                                proof {
                                    lemma_stacks_valid_update(self.slots@, i as int, next);
                                }
                                self.slots.set(i, next);
                                held = held - 1;
                            },
                            Some(stack) => {
                                proof {
                                    use_type_invariant(&stack);
                                }
                                if stack.item == item && stack.count < item.max_stack_size() {
                                    let next = Some(ItemStack { item, count: stack.count + 1 });
                                    proof {
                                        lemma_stacks_valid_update(self.slots@, i as int, next);
                                    }
                                    self.slots.set(i, next);
                                    held = held - 1;
                                }
                            },
                        }
                    }
                    i = i + 1;
                }
            },
            DragMode::Even => {
                let mut compatible: u8 = 0;
                let mut c: usize = 0;
                while c < INVENTORY_SIZE
                    invariant
                        c <= INVENTORY_SIZE,
                        visited@.len() == INVENTORY_SIZE,
                        self.slots@ == start,
                        self.wf(),
                        compatible == compatible_upto(start, visited@, item, c as int),
                        compatible <= c,
                    decreases INVENTORY_SIZE - c,
                {
                    if visited[c] {
                        let fits = match self.slots[c] {
                            None => true,
                            Some(stack) => stack.item == item && stack.count
                                < item.max_stack_size(),
                        };
                        if fits {
                            compatible = compatible + 1;
                        }
                    }
                    c = c + 1;
                }
                if compatible == 0 {
                    return;
                }
                let per = held / compatible;
                if per == 0 {
                    return;
                }
                proof {
                    lemma_even(self.slots@, visited@, 0, item, held as int, per as int);
                }
                let mut i: usize = 0;
                while i < INVENTORY_SIZE
                    invariant
                        i <= INVENTORY_SIZE,
                        visited@.len() == INVENTORY_SIZE,
                        self.wf(),
                        self.selected() == old(self).selected(),
                        start == old(self).slots(),
                        item == hand.spec_item(),
                        item.spec_is_valid(),
                        0 <= held <= BLOCK_STACK_SIZE,
                        per > 0,
                        per == (hand.spec_count() as int) / compatible_upto(
                            start,
                            visited@,
                            item,
                            INVENTORY_SIZE as int,
                        ),
                        even_from(self.slots@, visited@, i as int, item, held as int, per as int)
                            == even_from(
                            start,
                            visited@,
                            0,
                            item,
                            hand.spec_count() as int,
                            per as int,
                        ),
                    decreases INVENTORY_SIZE - i,
                {
                    if visited[i] && held > 0 {
                        match self.slots[i] {
                            None => {
                                let amount = if per < held {
                                    per
                                } else {
                                    held
                                };
                                let next = Some(ItemStack { item, count: amount });
                                proof {
                                    lemma_stacks_valid_update(self.slots@, i as int, next);
                                }
                                self.slots.set(i, next);
                                held = held - amount;
                            },
                            Some(stack) => {
                                proof {
                                    use_type_invariant(&stack);
                                }
                                if stack.item == item {
                                    let capacity = item.max_stack_size() - stack.count;
                                    let bounded = if per < capacity {
                                        per
                                    } else {
                                        capacity
                                    };
                                    let amount = if bounded < held {
                                        bounded
                                    } else {
                                        held
                                    };
                                    let next = Some(ItemStack { item, count: stack.count + amount });
                                    proof {
                                        lemma_stacks_valid_update(self.slots@, i as int, next);
                                    }
                                    self.slots.set(i, next);
                                    held = held - amount;
                                }
                            },
                        }
                    }
                    i = i + 1;
                }
            },
        }
        if held > 0 {
            *cursor = Some(ItemStack { item, count: held });
        } else {
            *cursor = None;
        }
    }
}

impl Default for PlayerInventory {
    /// Empty slots, except two dirt blocks in the first hotbar slot.
    fn default() -> (inventory: Self)
        ensures
            inventory.wf(),
            inventory.selected() == 0,
            inventory.slots().len() == INVENTORY_SIZE,
            inventory.slots()[0] == Some(ItemStack::of(ItemKind::Block(VoxelKind::Dirt), 2)),
            forall|i: int| 1 <= i < INVENTORY_SIZE ==> inventory.slots()[i] is None,
    {
        let mut slots: Vec<Option<ItemStack>> = Vec::new();
        slots.push(Some(ItemStack::new(ItemKind::Block(VoxelKind::Dirt), 2)));
        while slots.len() < INVENTORY_SIZE
            invariant
                1 <= slots@.len() <= INVENTORY_SIZE,
                slots@[0] == Some(ItemStack::of(ItemKind::Block(VoxelKind::Dirt), 2)),
                forall|i: int| 1 <= i < slots@.len() ==> slots@[i] is None,
            decreases INVENTORY_SIZE - slots@.len(),
        {
            slots.push(None);
        }
        let inventory = PlayerInventory { slots, selected_hotbar: 0 };
        proof {
            assert forall|i: int| 0 <= i < inventory.slots@.len() implies (#[trigger] inventory.slots@[i] matches Some(
                stack,
            ) ==> stack.is_valid_stack()) by {
                if i == 0 {
                    let st = ItemStack::of(ItemKind::Block(VoxelKind::Dirt), 2);
                    assert(st.valid());
                }
            }
        }
        inventory
    }
}

} // verus!
