//! The slot arena: a flat vector of order slots that are threaded into lists by index.

use crate::model::Order;
use vstd::prelude::*;

verus! {

/// The index that stands for "no slot".
pub const NULL_IDX: u32 = 0xFFFF_FFFF;

/// A node of the arena: an order and its links.
#[derive(Debug, Clone, Copy)]
pub struct OrderSlot {
    /// The order that the slot holds.
    pub order: Order,
    /// Index of the previous order in the queue of its price level.
    pub prev_idx: u32,
    /// Index of the next order in the queue, or of the next free slot.
    pub next_idx: u32,
    /// Whether the slot holds a resting order.
    pub in_use: bool,
    /// Bytes that fill the slot up to its size in a snapshot. No operation changes them.
    pub _padding: [u8; 7],
}

/// The `i`-th index of a list, `NULL_IDX` before its start and past its end.
pub open spec fn nth(list: Seq<u32>, i: int) -> u32 {
    if 0 <= i < list.len() {
        list[i]
    } else {
        NULL_IDX
    }
}

/// The slots that are met when at most `steps` next links are followed from `head`.
pub open spec fn walk(slots: Seq<OrderSlot>, head: u32, steps: nat) -> Seq<u32>
    decreases steps,
{
    if steps == 0 || head >= slots.len() {
        seq![]
    } else {
        seq![head] + walk(slots, slots[head as int].next_idx, (steps - 1) as nat)
    }
}

/// The list that starts at `head`.
pub open spec fn chain(slots: Seq<OrderSlot>, head: u32) -> Seq<u32> {
    walk(slots, head, slots.len())
}

/// The next link of place `i` of a list leads to the next place.
pub open spec fn linked(slots: Seq<OrderSlot>, list: Seq<u32>, i: int) -> bool {
    slots[list[i] as int].next_idx == nth(list, i + 1)
}

/// The previous link of place `i` of a list leads to the previous place.
pub open spec fn linked_back(slots: Seq<OrderSlot>, list: Seq<u32>, i: int) -> bool {
    slots[list[i] as int].prev_idx == nth(list, i - 1)
}

/// The next links thread the slots of `list`, from `head` to the end, without a repetition.
pub open spec fn threads(slots: Seq<OrderSlot>, head: u32, list: Seq<u32>) -> bool {
    &&& head == nth(list, 0)
    &&& list.no_duplicates()
    &&& forall|i: int| 0 <= i < list.len() ==> #[trigger] list[i] < slots.len()
    &&& forall|i: int| 0 <= i < list.len() ==> #[trigger] linked(slots, list, i)
}

/// The previous links thread the slots of `list` backwards.
pub open spec fn threads_back(slots: Seq<OrderSlot>, list: Seq<u32>) -> bool {
    forall|i: int| 0 <= i < list.len() ==> #[trigger] linked_back(slots, list, i)
}

/// A sequence of distinct indices below `n` has at most `n` elements.
pub proof fn lemma_distinct_indices(list: Seq<u32>, n: nat)
    requires
        list.no_duplicates(),
        forall|i: int| 0 <= i < list.len() ==> #[trigger] list[i] < n,
    ensures
        list.len() <= n,
    decreases n,
{
    if n == 0 {
        if list.len() > 0 {
            assert(list[0] < 0);
        }
    } else if exists|i: int| 0 <= i < list.len() && list[i] == n - 1 {
        let k = choose|i: int| 0 <= i < list.len() && list[i] == n - 1;
        lemma_distinct_indices(list.remove(k), (n - 1) as nat);
    } else {
        lemma_distinct_indices(list, (n - 1) as nat);
    }
}

/// A threaded list is what a walk from its head meets.
proof fn lemma_walk(slots: Seq<OrderSlot>, head: u32, list: Seq<u32>, steps: nat)
    requires
        slots.len() <= NULL_IDX,
        threads(slots, head, list),
        list.len() <= steps,
    ensures
        walk(slots, head, steps) == list,
    decreases list.len(),
{
    if list.len() > 0 {
        let rest = list.drop_first();
        assert forall|i: int| 0 <= i < rest.len() implies #[trigger] linked(slots, rest, i) by {
            assert(linked(slots, list, i + 1));
        }
        assert(linked(slots, list, 0));
        lemma_walk(slots, slots[head as int].next_idx, rest, (steps - 1) as nat);
        assert(seq![head] + rest =~= list);
    }
}

/// A threaded list is the chain from its head.
pub proof fn lemma_chain(slots: Seq<OrderSlot>, head: u32, list: Seq<u32>)
    requires
        slots.len() <= NULL_IDX,
        threads(slots, head, list),
    ensures
        chain(slots, head) == list,
{
    lemma_distinct_indices(list, slots.len());
    lemma_walk(slots, head, list, slots.len());
}

} // verus!
