//! Where a snapshot holds what, byte by byte, and what a book that is loaded from it looks like.

use crate::arena::{OrderSlot, NULL_IDX};
use crate::bytes::{byte_range, le_bytes, le_value, lemma_byte_ranges, lemma_le_value_bound};
use crate::grammar::lemma_byte;
use crate::model::Side;
use crate::rebuild::{countable, first_with, last_where, lemma_first_with, lemma_first_with_none};
use crate::rebuild::{leads, rebuilt_ids, rebuilt_levels, trails};
use crate::snapshot::{arena_bytes, flag_code, free_head_in, side_code, slot_bytes, slot_from};
use crate::snapshot::{lemma_arena_bytes, lemma_slot_len, slot_in, slots_in, snapshot_bytes};
use crate::snapshot::{snapshot_fault, value_in, SnapshotError};
use vstd::arithmetic::power::pow;
use vstd::prelude::*;

verus! {

/// Byte `k` of a value, from the lowest.
proof fn lemma_le_byte(value: nat, n: nat, k: int)
    requires
        0 <= k < n,
    ensures
        le_bytes(value, n).len() == n,
        le_bytes(value, n)[k] == (value as int / pow(256, k as nat)) % 256,
    decreases n,
{
    lemma_le_len(value, n);
    lemma_le_len(value / 256, (n - 1) as nat);
    if k == 0 {
        vstd::arithmetic::power::lemma_pow0(256);
    } else {
        lemma_le_byte(value / 256, (n - 1) as nat, k - 1);
        let p = pow(256, (k - 1) as nat);
        assert(pow(256, k as nat) == 256 * p) by {
            reveal(pow);
        }
        vstd::arithmetic::power::lemma_pow_positive(256, (k - 1) as nat);
        vstd::arithmetic::div_mod::lemma_div_denominator(value as int, 256, p);
    }
}

/// The bytes of a value are as many as were asked for.
proof fn lemma_le_len(value: nat, n: nat)
    ensures
        le_bytes(value, n).len() == n,
    decreases n,
{
    if n > 0 {
        lemma_le_len(value / 256, (n - 1) as nat);
    }
}

/// Byte `i` of a little-endian value, from the lowest, is byte `i` of its sequence.
pub proof fn law_values_are_little_endian(bytes: Seq<u8>, i: int)
    requires
        0 <= i < bytes.len(),
    ensures
        (le_value(bytes) as int / pow(256, i as nat)) % 256 == bytes[i],
{
    lemma_byte(bytes, i);
}

/// A snapshot starts with the head of the free list in four bytes and the number of slots in
/// eight, the lowest byte of each first, and has 56 bytes for every slot.
pub proof fn law_snapshot_header(slots: Seq<OrderSlot>, free_head: u32, k: int)
    requires
        0 <= k < 8,
    ensures
        ({
            let bytes = snapshot_bytes(slots, free_head);
            &&& bytes.len() == 12 + 56 * slots.len()
            &&& k < 4 ==> bytes[k] == (free_head as int / pow(256, k as nat)) % 256
            &&& bytes[4 + k] == (slots.len() as int / pow(256, k as nat)) % 256
        }),
{
    lemma_le_len(free_head as nat, 4);
    lemma_le_len(slots.len(), 8);
    lemma_arena_bytes(slots);
    if k < 4 {
        lemma_le_byte(free_head as nat, 4, k);
    }
    lemma_le_byte(slots.len(), 8, k);
}

/// The slots of a snapshot follow one after the other, 56 bytes each: identifier, price, quantity
/// and client of the order in eight bytes each, the lowest first; its side, 0 to buy and 1 to
/// sell, and seven zeros; the links to the previous and to the next slot in four bytes each; the
/// flag, 1 where the slot is in use; and the padding of the slot.
pub proof fn law_snapshot_slots(slots: Seq<OrderSlot>, free_head: u32, i: int, k: int)
    requires
        0 <= i < slots.len(),
        0 <= k < 8,
    ensures
        ({
            let bytes = snapshot_bytes(slots, free_head);
            let at = 12 + 56 * i;
            let slot = slots[i];
            let p = pow(256, k as nat);
            &&& bytes[at + k] == (slot.order.order_id as int / p) % 256
            &&& bytes[at + 8 + k] == (slot.order.price as int / p) % 256
            &&& bytes[at + 16 + k] == (slot.order.quantity as int / p) % 256
            &&& bytes[at + 24 + k] == (slot.order.client_id as int / p) % 256
            &&& bytes[at + 32] == if slot.order.side == Side::Buy {
                0u8
            } else {
                1u8
            }
            &&& k > 0 ==> bytes[at + 32 + k] == 0
            &&& k < 4 ==> bytes[at + 40 + k] == (slot.prev_idx as int / p) % 256
            &&& k < 4 ==> bytes[at + 44 + k] == (slot.next_idx as int / p) % 256
            &&& bytes[at + 48] == if slot.in_use {
                1u8
            } else {
                0u8
            }
            &&& k < 7 ==> bytes[at + 49 + k] == slot._padding[k]
        }),
{
    let bytes = snapshot_bytes(slots, free_head);
    let at = 12 + 56 * i;
    let slot = slots[i];
    let arena = arena_bytes(slots);
    lemma_le_len(free_head as nat, 4);
    lemma_le_len(slots.len(), 8);
    lemma_arena_bytes(slots);
    let whole = arena.subrange(56 * i, 56 * i + 56);
    assert(whole == slot_bytes(slot));
    assert forall|o: int| 0 <= o < 56 implies bytes[at + o] == #[trigger] whole[o] by {}
    lemma_slot_at(slot, k);
    assert(bytes[at + k] == whole[k]);
    assert(bytes[at + 8 + k] == whole[8 + k]);
    assert(bytes[at + 16 + k] == whole[16 + k]);
    assert(bytes[at + 24 + k] == whole[24 + k]);
    assert(bytes[at + 32 + k] == whole[32 + k]);
    assert(bytes[at + 32] == whole[32]);
    assert(bytes[at + 40 + k] == whole[40 + k]);
    assert(bytes[at + 48] == whole[48]);
    if k < 4 {
        assert(bytes[at + 44 + k] == whole[44 + k]);
    }
    if k < 7 {
        assert(bytes[at + 49 + k] == whole[49 + k]);
    }
}

/// Where a slot holds what.
proof fn lemma_slot_at(slot: OrderSlot, k: int)
    requires
        0 <= k < 8,
    ensures
        ({
            let whole = slot_bytes(slot);
            let p = pow(256, k as nat);
            &&& whole.len() == 56
            &&& whole[k] == (slot.order.order_id as int / p) % 256
            &&& whole[8 + k] == (slot.order.price as int / p) % 256
            &&& whole[16 + k] == (slot.order.quantity as int / p) % 256
            &&& whole[24 + k] == (slot.order.client_id as int / p) % 256
            &&& whole[32] == side_code(slot.order.side)
            &&& k > 0 ==> whole[32 + k] == 0
            &&& k < 4 ==> whole[40 + k] == (slot.prev_idx as int / p) % 256
            &&& k < 4 ==> whole[44 + k] == (slot.next_idx as int / p) % 256
            &&& whole[48] == flag_code(slot.in_use)
            &&& k < 7 ==> whole[49 + k] == slot._padding[k]
        }),
{
    let side = side_code(slot.order.side) as nat;
    lemma_slot_len(slot);
    lemma_le_byte(slot.order.order_id as nat, 8, k);
    lemma_le_byte(slot.order.price as nat, 8, k);
    lemma_le_byte(slot.order.quantity as nat, 8, k);
    lemma_le_byte(slot.order.client_id as nat, 8, k);
    lemma_le_byte(side, 8, 0);
    lemma_le_byte(side, 8, k);
    vstd::arithmetic::power::lemma_pow0(256);
    lemma_le_len(slot.prev_idx as nat, 4);
    lemma_le_len(slot.next_idx as nat, 4);
    if k > 0 {
        vstd::arithmetic::power::lemma_pow_increases(256, 1, k as nat);
        vstd::arithmetic::power::lemma_pow1(256);
        vstd::arithmetic::div_mod::lemma_basic_div(side as int, pow(256, k as nat));
    }
    if k < 4 {
        lemma_le_byte(slot.prev_idx as nat, 4, k);
        lemma_le_byte(slot.next_idx as nat, 4, k);
    }
}

/// The bytes of a value that was read are those that it was read from.
proof fn lemma_read_back(bytes: Seq<u8>, at: int, n: int, k: int)
    requires
        0 <= at,
        0 <= k < n,
        at + n <= bytes.len(),
    ensures
        (value_in(bytes, at, n) as int / pow(256, k as nat)) % 256 == bytes[at + k],
        value_in(bytes, at, n) < byte_range(n as nat),
{
    let part = bytes.subrange(at, at + n);
    lemma_byte(part, k);
    lemma_le_value_bound(part);
}

/// A snapshot is kept: saved again, what was loaded from it has every byte of it back, but those
/// that fill up a side.
pub proof fn law_loaded_snapshots_are_kept(bytes: Seq<u8>, n: nat, i: int, o: int)
    requires
        snapshot_fault(bytes, n) is None,
        n <= NULL_IDX,
        0 <= i < n,
        0 <= o < 56,
        !(33 <= o < 40),
    ensures
        ({
            let again = snapshot_bytes(slots_in(bytes, n), free_head_in(bytes));
            &&& again[12 + 56 * i + o] == bytes[12 + 56 * i + o]
            &&& o < 12 ==> again[o] == bytes[o]
        }),
{
    let slots = slots_in(bytes, n);
    let free_head = free_head_in(bytes);
    let at = 12 + 56 * i;
    lemma_byte_ranges();
    assert(slot_in(bytes, i) is Some);
    let slot = slots[i];
    assert(slot == slot_from(bytes, at)->0);
    if o < 12 {
        if o < 4 {
            law_snapshot_header(slots, free_head, o);
            lemma_read_back(bytes, 0, 4, o);
        } else {
            law_snapshot_header(slots, free_head, o - 4);
            lemma_read_back(bytes, 4, 8, o - 4);
        }
    }
    if o < 8 {
        law_snapshot_slots(slots, free_head, i, o);
        lemma_read_back(bytes, at, 8, o);
    } else if o < 16 {
        law_snapshot_slots(slots, free_head, i, o - 8);
        lemma_read_back(bytes, at + 8, 8, o - 8);
    } else if o < 24 {
        law_snapshot_slots(slots, free_head, i, o - 16);
        lemma_read_back(bytes, at + 16, 8, o - 16);
    } else if o < 32 {
        law_snapshot_slots(slots, free_head, i, o - 24);
        lemma_read_back(bytes, at + 24, 8, o - 24);
    } else if o == 32 {
        law_snapshot_slots(slots, free_head, i, 0);
    } else if o < 44 {
        law_snapshot_slots(slots, free_head, i, o - 40);
        lemma_read_back(bytes, at + 40, 4, o - 40);
    } else if o < 48 {
        law_snapshot_slots(slots, free_head, i, o - 44);
        lemma_read_back(bytes, at + 44, 4, o - 44);
    } else if o == 48 {
        law_snapshot_slots(slots, free_head, i, 0);
    } else {
        law_snapshot_slots(slots, free_head, i, o - 49);
    }
}

/// A snapshot is refused where it ends early, where it counts another number of slots than the
/// book has, where a slot has a side or a flag above 1, and where a level cannot count what the
/// slots have at its price, in this order, and in no other case.
pub proof fn law_snapshot_faults_are_exact(bytes: Seq<u8>, n: nat)
    ensures
        ({
            let fault = snapshot_fault(bytes, n);
            let counts = bytes.len() >= 12 && le_value(bytes.subrange(4, 12)) == n;
            let whole = counts && bytes.len() >= 12 + 56 * n;
            let damaged = exists|i: int|
                #![trigger bytes[12 + 56 * i + 32]]
                0 <= i < n && (bytes[12 + 56 * i + 32] > 1 || bytes[12 + 56 * i + 48] > 1);
            let counted = countable(slots_in(bytes, n), n);
            &&& fault == Some(SnapshotError::UnexpectedEnd) <==> bytes.len() < 12 || counts
                && !whole
            &&& fault == Some(SnapshotError::LengthMismatch) <==> bytes.len() >= 12 && !counts
            &&& fault == Some(SnapshotError::InvalidSlot) <==> whole && damaged
            &&& fault == Some(SnapshotError::QuantityOverflow) <==> whole && !damaged && !counted
            &&& fault is None <==> whole && !damaged && counted
        }),
{
    assert forall|i: int| 0 <= i < n implies (#[trigger] slot_in(bytes, i) is None) == (bytes[12
        + 56 * i + 32] > 1 || bytes[12 + 56 * i + 48] > 1) by {}
    let invalid = exists|i: int| 0 <= i < n && #[trigger] slot_in(bytes, i) is None;
    let damaged = exists|i: int|
        #![trigger bytes[12 + 56 * i + 32]]
        0 <= i < n && (bytes[12 + 56 * i + 32] > 1 || bytes[12 + 56 * i + 48] > 1);
    if invalid {
        let i = choose|i: int| 0 <= i < n && #[trigger] slot_in(bytes, i) is None;
        assert(bytes[12 + 56 * i + 32] > 1 || bytes[12 + 56 * i + 48] > 1);
    }
    if damaged {
        let i = choose|i: int|
            #![trigger bytes[12 + 56 * i + 32]]
            0 <= i < n && (bytes[12 + 56 * i + 32] > 1 || bytes[12 + 56 * i + 48] > 1);
        assert(slot_in(bytes, i) is None);
    }
}

/// The last index that has a property.
proof fn lemma_last_index(f: spec_fn(int) -> bool, n: nat, i: int)
    requires
        n <= NULL_IDX,
        0 <= i < n,
        f(i),
    ensures
        i <= last_where(f, n) < n,
        f(last_where(f, n) as int),
    decreases n,
{
    if !f(n - 1) {
        lemma_last_index(f, (n - 1) as nat, i);
    }
}

/// Where no index has a property.
proof fn lemma_no_index(f: spec_fn(int) -> bool, n: nat)
    requires
        forall|i: int| 0 <= i < n ==> !#[trigger] f(i),
    ensures
        last_where(f, n) == NULL_IDX,
    decreases n,
{
    if n > 0 {
        assert(!f(n - 1));
        lemma_no_index(f, (n - 1) as nat);
    }
}

/// Rebuilt, a level stands at the price of every slot in use, and at no other. Its queue starts at
/// the last of its slots that follows no other, and ends at the last that no other follows.
pub proof fn law_rebuilt_levels_lead_to_their_slots(
    slots: Seq<OrderSlot>,
    side: Side,
    price: u64,
    i: int,
)
    requires
        slots.len() <= NULL_IDX,
        0 <= i < slots.len(),
        slots[i].in_use,
        slots[i].order.side == side,
        slots[i].order.price == price,
    ensures
        ({
            let levels = rebuilt_levels(slots, side, slots.len());
            let level = levels[price];
            let head = slots[level.head_idx as int];
            let tail = slots[level.tail_idx as int];
            &&& levels.contains_key(price)
            &&& level.price == price
            &&& slots[i].prev_idx == NULL_IDX ==> {
                &&& i <= level.head_idx < slots.len()
                &&& head.in_use && head.order.side == side && head.order.price == price
                &&& head.prev_idx == NULL_IDX
            }
            &&& slots[i].next_idx == NULL_IDX ==> {
                &&& i <= level.tail_idx < slots.len()
                &&& tail.in_use && tail.order.side == side && tail.order.price == price
                &&& tail.next_idx == NULL_IDX
            }
        }),
{
    if slots[i].prev_idx == NULL_IDX {
        lemma_last_index(leads(slots, side, price), slots.len(), i);
    }
    if slots[i].next_idx == NULL_IDX {
        lemma_last_index(trails(slots, side, price), slots.len(), i);
    }
}

/// Rebuilt, there is no level at a price where no slot is in use. A level whose slots all follow
/// another has no start, and one whose slots are all followed has no end.
pub proof fn law_rebuilt_levels_have_slots(slots: Seq<OrderSlot>, side: Side, price: u64)
    requires
        rebuilt_levels(slots, side, slots.len()).contains_key(price),
    ensures
        exists|i: int|
            0 <= i < slots.len() && (#[trigger] slots[i]).in_use && slots[i].order.side == side
                && slots[i].order.price == price,
        (forall|i: int|
            0 <= i < slots.len() && (#[trigger] slots[i]).in_use && slots[i].order.side == side
                && slots[i].order.price == price ==> slots[i].prev_idx != NULL_IDX)
            ==> rebuilt_levels(slots, side, slots.len())[price].head_idx == NULL_IDX,
        (forall|i: int|
            0 <= i < slots.len() && (#[trigger] slots[i]).in_use && slots[i].order.side == side
                && slots[i].order.price == price ==> slots[i].next_idx != NULL_IDX)
            ==> rebuilt_levels(slots, side, slots.len())[price].tail_idx == NULL_IDX,
{
    let leading = leads(slots, side, price);
    let trailing = trails(slots, side, price);
    if forall|i: int|
        0 <= i < slots.len() && (#[trigger] slots[i]).in_use && slots[i].order.side == side
            && slots[i].order.price == price ==> slots[i].prev_idx != NULL_IDX {
        assert forall|i: int| 0 <= i < slots.len() implies !#[trigger] leading(i) by {
            assert(slots[i].in_use || !slots[i].in_use);
        }
        lemma_no_index(leading, slots.len());
    }
    if forall|i: int|
        0 <= i < slots.len() && (#[trigger] slots[i]).in_use && slots[i].order.side == side
            && slots[i].order.price == price ==> slots[i].next_idx != NULL_IDX {
        assert forall|i: int| 0 <= i < slots.len() implies !#[trigger] trailing(i) by {
            assert(slots[i].in_use || !slots[i].in_use);
        }
        lemma_no_index(trailing, slots.len());
    }
}

/// Rebuilt, the index leads from an identifier to the first slot in use that holds it, and has no
/// other entries.
pub proof fn law_rebuilt_index_leads_to_the_first_slot(slots: Seq<OrderSlot>, id: u64)
    requires
        slots.len() <= NULL_IDX,
    ensures
        ({
            let index = rebuilt_ids(slots, slots.len());
            &&& index.contains_key(id) <==> exists|i: int|
                0 <= i < slots.len() && (#[trigger] slots[i]).in_use && slots[i].order.order_id
                    == id
            &&& index.contains_key(id) ==> {
                let first = index[id] as int;
                &&& first < slots.len()
                &&& slots[first].in_use && slots[first].order.order_id == id
                &&& forall|j: int|
                    0 <= j < first ==> !((#[trigger] slots[j]).in_use && slots[j].order.order_id
                        == id)
            }
        }),
{
    let n = slots.len();
    if first_with(slots, id, n) is Some {
        lemma_first_with(slots, id, n);
        lemma_none_earlier(slots, id, n);
    } else {
        lemma_first_with_none(slots, id, n);
    }
}

/// No slot before the first holds the order.
proof fn lemma_none_earlier(slots: Seq<OrderSlot>, id: u64, n: nat)
    requires
        n <= slots.len() <= NULL_IDX,
        first_with(slots, id, n) is Some,
    ensures
        forall|j: int|
            0 <= j < first_with(slots, id, n)->0 ==> !((#[trigger] slots[j]).in_use
                && slots[j].order.order_id == id),
    decreases n,
{
    if first_with(slots, id, (n - 1) as nat) is Some {
        lemma_none_earlier(slots, id, (n - 1) as nat);
    } else {
        lemma_first_with_none(slots, id, (n - 1) as nat);
    }
}

} // verus!
