//! Binary snapshots of a book.
//!
//! A snapshot is the arena as it lies in memory: the head of the free list in four bytes, the
//! number of slots in eight, then the slots of 56 bytes each, all of it little-endian. The
//! indexes are not part of it, and are rebuilt when it is loaded.

use crate::arena::OrderSlot;
use crate::book::OrderBook;
use crate::bytes::{le_bytes, le_value, read_le, write_le};
use crate::bytes::{lemma_byte_ranges, lemma_le_round_trip};
use crate::model::{Order, Side};
use crate::rebuild::countable;
use std::mem::swap;
use vstd::prelude::*;

verus! {

/// Why a snapshot cannot be loaded.
#[derive(Debug, Clone, Copy, PartialEq, Eq, Structural)]
pub enum SnapshotError {
    /// The snapshot ends before its last slot.
    UnexpectedEnd,
    /// The snapshot has another number of slots than the book.
    LengthMismatch,
    /// A slot has a side or a flag that is none.
    InvalidSlot,
    /// The orders at one price have more quantity than a level can count.
    QuantityOverflow,
}

impl SnapshotError {
    /// What the error says.
    pub open spec fn text(self) -> Seq<char> {
        match self {
            SnapshotError::UnexpectedEnd => "Snapshot ends early"@,
            SnapshotError::LengthMismatch => "Snapshot slots length mismatch"@,
            SnapshotError::InvalidSlot => "Snapshot slot is invalid"@,
            SnapshotError::QuantityOverflow => "Snapshot quantity overflows"@,
        }
    }

    /// Returns what the error says.
    pub fn message(&self) -> (message: &'static str)
        ensures
            message@ == self.text(),
    {
        match self {
            SnapshotError::UnexpectedEnd => "Snapshot ends early",
            SnapshotError::LengthMismatch => "Snapshot slots length mismatch",
            SnapshotError::InvalidSlot => "Snapshot slot is invalid",
            SnapshotError::QuantityOverflow => "Snapshot quantity overflows",
        }
    }
}

/// Number of bytes before the slots.
pub const HEADER_SIZE: usize = 12;

/// Number of bytes of a slot.
pub const SLOT_SIZE: usize = 56;

/// The number of a side.
pub open spec fn side_code(side: Side) -> u8 {
    match side {
        Side::Buy => 0,
        Side::Sell => 1,
    }
}

/// The number of a flag.
pub open spec fn flag_code(flag: bool) -> u8 {
    if flag {
        1
    } else {
        0
    }
}

/// The bytes of a slot. The side is filled up to eight bytes with zeros, the flag with the padding
/// of the slot.
pub open spec fn slot_bytes(slot: OrderSlot) -> Seq<u8> {
    le_bytes(slot.order.order_id as nat, 8) + le_bytes(slot.order.price as nat, 8) + le_bytes(
        slot.order.quantity as nat,
        8,
    ) + le_bytes(slot.order.client_id as nat, 8) + le_bytes(side_code(slot.order.side) as nat, 8)
        + le_bytes(slot.prev_idx as nat, 4) + le_bytes(slot.next_idx as nat, 4) + seq![
        flag_code(slot.in_use),
    ] + slot._padding@
}

/// The bytes of an arena.
pub open spec fn arena_bytes(slots: Seq<OrderSlot>) -> Seq<u8>
    decreases slots.len(),
{
    if slots.len() == 0 {
        seq![]
    } else {
        arena_bytes(slots.drop_last()) + slot_bytes(slots.last())
    }
}

/// The snapshot of an arena and its free list.
pub open spec fn snapshot_bytes(slots: Seq<OrderSlot>, free_head: u32) -> Seq<u8> {
    le_bytes(free_head as nat, 4) + le_bytes(slots.len(), 8) + arena_bytes(slots)
}

/// The value of the `n` bytes from `at`.
pub open spec fn value_in(bytes: Seq<u8>, at: int, n: int) -> nat {
    le_value(bytes.subrange(at, at + n))
}

/// The slot that the bytes from `at` stand for.
pub open spec fn slot_from(bytes: Seq<u8>, at: int) -> Option<OrderSlot> {
    if bytes[at + 32] > 1 || bytes[at + 48] > 1 {
        None
    } else {
        Some(
            OrderSlot {
                order: Order {
                    order_id: value_in(bytes, at, 8) as u64,
                    price: value_in(bytes, at + 8, 8) as u64,
                    quantity: value_in(bytes, at + 16, 8) as u64,
                    client_id: value_in(bytes, at + 24, 8) as u64,
                    side: if bytes[at + 32] == 0 {
                        Side::Buy
                    } else {
                        Side::Sell
                    },
                },
                prev_idx: value_in(bytes, at + 40, 4) as u32,
                next_idx: value_in(bytes, at + 44, 4) as u32,
                in_use: bytes[at + 48] == 1,
                _padding: [
                    bytes[at + 49],
                    bytes[at + 50],
                    bytes[at + 51],
                    bytes[at + 52],
                    bytes[at + 53],
                    bytes[at + 54],
                    bytes[at + 55],
                ],
            },
        )
    }
}

/// Slot `i` of a snapshot.
pub open spec fn slot_in(bytes: Seq<u8>, i: int) -> Option<OrderSlot> {
    slot_from(bytes, HEADER_SIZE + SLOT_SIZE * i)
}

/// The arena of `n` slots that a snapshot holds.
pub open spec fn slots_in(bytes: Seq<u8>, n: nat) -> Seq<OrderSlot> {
    Seq::new(n, |i: int| slot_in(bytes, i)->0)
}

/// The head of the free list that a snapshot holds.
pub open spec fn free_head_in(bytes: Seq<u8>) -> u32 {
    value_in(bytes, 0, 4) as u32
}

impl OrderBook {
    /// The book is what a snapshot holds, with indexes rebuilt from it.
    pub open spec fn loaded(self, bytes: Seq<u8>) -> bool {
        &&& self.slots@ == slots_in(bytes, self.slots@.len())
        &&& self.free_head == free_head_in(bytes)
        &&& self.rebuilt()
    }
}

/// Why a snapshot cannot be loaded into a book of `n` slots, `None` where it can.
pub open spec fn snapshot_fault(bytes: Seq<u8>, n: nat) -> Option<SnapshotError> {
    if bytes.len() < HEADER_SIZE {
        Some(SnapshotError::UnexpectedEnd)
    } else if value_in(bytes, 4, 8) != n {
        Some(SnapshotError::LengthMismatch)
    } else if bytes.len() < HEADER_SIZE + SLOT_SIZE * n {
        Some(SnapshotError::UnexpectedEnd)
    } else if exists|i: int| 0 <= i < n && #[trigger] slot_in(bytes, i) is None {
        Some(SnapshotError::InvalidSlot)
    } else if !countable(slots_in(bytes, n), n) {
        Some(SnapshotError::QuantityOverflow)
    } else {
        None
    }
}

/// The bytes from `at` stand for the slot whose bytes they are.
proof fn lemma_slot_round_trip(bytes: Seq<u8>, at: int, slot: OrderSlot)
    requires
        0 <= at,
        at + SLOT_SIZE <= bytes.len(),
        bytes.subrange(at, at + SLOT_SIZE) == slot_bytes(slot),
    ensures
        slot_from(bytes, at) == Some(slot),
{
    let whole = slot_bytes(slot);
    let side = side_code(slot.order.side);
    let flag = flag_code(slot.in_use);
    lemma_byte_ranges();
    lemma_le_round_trip(slot.order.order_id as nat, 8);
    lemma_le_round_trip(slot.order.price as nat, 8);
    lemma_le_round_trip(slot.order.quantity as nat, 8);
    lemma_le_round_trip(slot.order.client_id as nat, 8);
    lemma_le_round_trip(side as nat, 8);
    lemma_le_round_trip(slot.prev_idx as nat, 4);
    lemma_le_round_trip(slot.next_idx as nat, 4);
    assert(bytes.subrange(at, at + 8) =~= le_bytes(slot.order.order_id as nat, 8)) by {
        lemma_part(bytes, at, whole, 0, 8);
    }
    assert(bytes.subrange(at + 8, at + 16) =~= le_bytes(slot.order.price as nat, 8)) by {
        lemma_part(bytes, at, whole, 8, 16);
    }
    assert(bytes.subrange(at + 16, at + 24) =~= le_bytes(slot.order.quantity as nat, 8)) by {
        lemma_part(bytes, at, whole, 16, 24);
    }
    assert(bytes.subrange(at + 24, at + 32) =~= le_bytes(slot.order.client_id as nat, 8)) by {
        lemma_part(bytes, at, whole, 24, 32);
    }
    assert(bytes.subrange(at + 40, at + 44) =~= le_bytes(slot.prev_idx as nat, 4)) by {
        lemma_part(bytes, at, whole, 40, 44);
    }
    assert(bytes.subrange(at + 44, at + 48) =~= le_bytes(slot.next_idx as nat, 4)) by {
        lemma_part(bytes, at, whole, 44, 48);
    }
    assert(bytes[at + 32] == whole[32]);
    assert(bytes[at + 48] == whole[48]);
    assert(whole[32] == le_bytes(side as nat, 8)[0]);
    assert(whole[48] == flag);
    assert forall|i: int| 0 <= i < 7 implies #[trigger] slot._padding[i] == bytes[at + 49 + i] by {
        assert(whole[49 + i] == slot._padding@[i]);
        assert(bytes.subrange(at, at + SLOT_SIZE)[49 + i] == bytes[at + 49 + i]);
    }
    assert(slot_from(bytes, at)->0._padding =~= slot._padding);
}

/// A part of the bytes from `at`.
proof fn lemma_part(bytes: Seq<u8>, at: int, whole: Seq<u8>, from: int, to: int)
    requires
        0 <= at,
        0 <= from <= to <= whole.len(),
        at + whole.len() <= bytes.len(),
        bytes.subrange(at, at + whole.len()) == whole,
    ensures
        bytes.subrange(at + from, at + to) == whole.subrange(from, to),
{
    assert forall|i: int| from <= i < to implies bytes[at + i] == #[trigger] whole[i] by {
        assert(bytes.subrange(at, at + whole.len())[i] == bytes[at + i]);
    }
    assert(bytes.subrange(at + from, at + to) =~= whole.subrange(from, to));
}

/// The slots lie one after the other.
pub(crate) proof fn lemma_arena_bytes(slots: Seq<OrderSlot>)
    ensures
        arena_bytes(slots).len() == SLOT_SIZE * slots.len(),
        forall|i: int|
            0 <= i < slots.len() ==> arena_bytes(slots).subrange(
                SLOT_SIZE * i,
                SLOT_SIZE * i + SLOT_SIZE,
            ) == slot_bytes(#[trigger] slots[i]),
    decreases slots.len(),
{
    if slots.len() > 0 {
        let rest = slots.drop_last();
        lemma_arena_bytes(rest);
        lemma_slot_len(slots.last());
        assert forall|i: int| 0 <= i < slots.len() implies arena_bytes(slots).subrange(
            SLOT_SIZE * i,
            SLOT_SIZE * i + SLOT_SIZE,
        ) == slot_bytes(#[trigger] slots[i]) by {
            if i < rest.len() {
                assert(rest[i] == slots[i]);
                assert(arena_bytes(slots).subrange(SLOT_SIZE * i, SLOT_SIZE * i + SLOT_SIZE)
                    =~= arena_bytes(rest).subrange(SLOT_SIZE * i, SLOT_SIZE * i + SLOT_SIZE));
            } else {
                assert(arena_bytes(slots).subrange(SLOT_SIZE * i, SLOT_SIZE * i + SLOT_SIZE)
                    =~= slot_bytes(slots[i]));
            }
        }
    }
}

/// A slot has a fixed number of bytes.
pub(crate) proof fn lemma_slot_len(slot: OrderSlot)
    ensures
        slot_bytes(slot).len() == SLOT_SIZE,
{
    lemma_byte_ranges();
    lemma_le_round_trip(slot.order.order_id as nat, 8);
    lemma_le_round_trip(slot.order.price as nat, 8);
    lemma_le_round_trip(slot.order.quantity as nat, 8);
    lemma_le_round_trip(slot.order.client_id as nat, 8);
    lemma_le_round_trip(side_code(slot.order.side) as nat, 8);
    lemma_le_round_trip(slot.prev_idx as nat, 4);
    lemma_le_round_trip(slot.next_idx as nat, 4);
}

/// A snapshot holds what it was taken of, whatever follows it: it has a fault only where a
/// level cannot count what the arena has at its price.
pub proof fn lemma_snapshot_round_trip(slots: Seq<OrderSlot>, free_head: u32, tail: Seq<u8>)
    requires
        slots.len() <= u64::MAX,
    ensures
        ({
            let bytes = snapshot_bytes(slots, free_head) + tail;
            &&& snapshot_bytes(slots, free_head).len() == HEADER_SIZE + SLOT_SIZE * slots.len()
            &&& slots_in(bytes, slots.len()) == slots
            &&& free_head_in(bytes) == free_head
            &&& snapshot_fault(bytes, slots.len()) == if countable(slots, slots.len()) {
                None
            } else {
                Some(SnapshotError::QuantityOverflow)
            }
        }),
{
    let plain = snapshot_bytes(slots, free_head);
    let bytes = plain + tail;
    let arena = arena_bytes(slots);
    let n = slots.len();
    lemma_byte_ranges();
    lemma_le_round_trip(free_head as nat, 4);
    lemma_le_round_trip(n, 8);
    lemma_arena_bytes(slots);
    assert(bytes.subrange(0, 4) =~= le_bytes(free_head as nat, 4));
    assert(bytes.subrange(4, 12) =~= le_bytes(n, 8));
    assert forall|i: int| 0 <= i < n implies #[trigger] slot_in(bytes, i) == Some(slots[i]) by {
        let at = HEADER_SIZE + SLOT_SIZE * i;
        let part = arena.subrange(SLOT_SIZE * i, SLOT_SIZE * i + SLOT_SIZE);
        assert(part == slot_bytes(slots[i]));
        assert(bytes.subrange(at, at + SLOT_SIZE) =~= part);
        lemma_slot_round_trip(bytes, at, slots[i]);
    }
    assert(slots_in(bytes, n) =~= slots);
}

/// Appends the bytes of a slot.
fn write_slot(out: &mut Vec<u8>, slot: &OrderSlot)
    ensures
        final(out)@ == old(out)@ + slot_bytes(*slot),
{
    let side: u64 = match slot.order.side() {
        Side::Buy => 0,
        Side::Sell => 1,
    };
    let flag: u8 = if slot.in_use {
        1
    } else {
        0
    };
    write_le(out, slot.order.order_id, 8);
    write_le(out, slot.order.price, 8);
    write_le(out, slot.order.quantity, 8);
    write_le(out, slot.order.client_id, 8);
    write_le(out, side, 8);
    write_le(out, slot.prev_idx as u64, 4);
    write_le(out, slot.next_idx as u64, 4);
    out.push(flag);
    let mut i: usize = 0;
    let ghost before = out@;
    while i < 7
        invariant
            i <= 7,
            out@ == before + slot._padding@.take(i as int),
        decreases 7 - i,
    {
        out.push(slot._padding[i]);
        assert(out@ =~= before + slot._padding@.take(i + 1));
        i = i + 1;
    }
    assert(slot._padding@.take(7) =~= slot._padding@);
    assert(out@ =~= old(out)@ + slot_bytes(*slot));
}

/// Takes a snapshot of a book.
pub fn save_snapshot(book: &OrderBook) -> (snapshot: Vec<u8>)
    ensures
        snapshot@ == snapshot_bytes(book.slots@, book.free_head),
{
    let slots = book.slots();
    let mut out: Vec<u8> = Vec::new();
    write_le(&mut out, book.free_head() as u64, 4);
    write_le(&mut out, slots.len() as u64, 8);
    let ghost header = out@;
    let mut i: usize = 0;
    assert(slots@.take(0) =~= Seq::<OrderSlot>::empty());
    assert(header =~= header + arena_bytes(slots@.take(0)));
    while i < slots.len()
        invariant
            i <= slots@.len(),
            out@ == header + arena_bytes(slots@.take(i as int)),
        decreases slots@.len() - i,
    {
        proof {
            let before = slots@.take(i as int);
            let after = slots@.take(i + 1);
            assert(after.drop_last() =~= before);
            assert(header + (arena_bytes(before) + slot_bytes(after.last())) =~= header
                + arena_bytes(before) + slot_bytes(after.last()));
        }
        write_slot(&mut out, &slots[i]);
        i = i + 1;
    }
    assert(slots@.take(i as int) =~= slots@);
    out
}

/// Reads the slot that the bytes from `at` stand for.
fn read_slot(data: &[u8], at: usize) -> (slot: Option<OrderSlot>)
    requires
        at + SLOT_SIZE <= data.len(),
    ensures
        slot == slot_from(data@, at as int),
{
    let side: u8 = data[at + 32];
    let flag: u8 = data[at + 48];
    if side > 1 || flag > 1 {
        return None;
    }
    proof {
        lemma_byte_ranges();
    }
    let order = Order::new(
        read_le(data, at, 8),
        read_le(data, at + 8, 8),
        read_le(data, at + 16, 8),
        read_le(data, at + 24, 8),
        if side == 0 {
            Side::Buy
        } else {
            Side::Sell
        },
    );
    Some(
        OrderSlot {
            order,
            prev_idx: read_le(data, at + 40, 4) as u32,
            next_idx: read_le(data, at + 44, 4) as u32,
            in_use: flag == 1,
            _padding: [
                data[at + 49],
                data[at + 50],
                data[at + 51],
                data[at + 52],
                data[at + 53],
                data[at + 54],
                data[at + 55],
            ],
        },
    )
}

/// Reads the slots of a snapshot, `None` where one of them is invalid.
fn read_slots(data: &[u8], n: usize) -> (slots: Option<Vec<OrderSlot>>)
    requires
        HEADER_SIZE + SLOT_SIZE * n <= data.len(),
    ensures
        match slots {
            Some(slots) => slots@ == slots_in(data@, n as nat) && forall|i: int|
                0 <= i < n ==> #[trigger] slot_in(data@, i) is Some,
            None => exists|i: int| 0 <= i < n && #[trigger] slot_in(data@, i) is None,
        },
{
    let mut slots: Vec<OrderSlot> = Vec::with_capacity(n);
    let mut i: usize = 0;
    while i < n
        invariant
            i <= n,
            HEADER_SIZE + SLOT_SIZE * n <= data.len(),
            slots@.len() == i,
            forall|j: int| 0 <= j < i ==> #[trigger] slot_in(data@, j) == Some(slots@[j]),
        decreases n - i,
    {
        match read_slot(data, HEADER_SIZE + SLOT_SIZE * i) {
            Some(slot) => slots.push(slot),
            None => {
                assert(slot_in(data@, i as int) is None);
                return None;
            },
        }
        i = i + 1;
    }
    assert(slots@ =~= slots_in(data@, n as nat));
    Some(slots)
}

/// Loads a snapshot into a book of as many slots, and rebuilds the indexes.
///
/// # Errors
/// Returns `SnapshotError::UnexpectedEnd` if the snapshot ends early,
/// `SnapshotError::LengthMismatch` if it has another number of slots than the book,
/// `SnapshotError::InvalidSlot` if the side or the flag of a slot is invalid, and
/// `SnapshotError::QuantityOverflow` if the orders at one price have more quantity than a level
/// can count. The book is then as it was.
pub fn load_snapshot(book: &mut OrderBook, data: &[u8]) -> (result: Result<(), SnapshotError>)
    requires
        old(book).sized(),
    ensures
        match snapshot_fault(data@, old(book).slots@.len()) {
            Some(error) => result == Err::<(), SnapshotError>(error) && *final(book) == *old(book),
            None => {
                &&& result is Ok
                &&& final(book).slots@.len() == old(book).slots@.len()
                &&& final(book).loaded(data@)
            },
        },
{
    if data.len() < HEADER_SIZE {
        return Err(SnapshotError::UnexpectedEnd);
    }
    let n: usize = book.slots().len();
    let free_head: u32 = read_le(data, 0, 4) as u32;
    let slots_len: u64 = read_le(data, 4, 8);
    proof {
        lemma_byte_ranges();
    }
    if slots_len != n as u64 {
        return Err(SnapshotError::LengthMismatch);
    }
    if (data.len() - HEADER_SIZE) / SLOT_SIZE < n {
        return Err(SnapshotError::UnexpectedEnd);
    }
    let mut slots = match read_slots(data, n) {
        Some(slots) => slots,
        None => {
            return Err(SnapshotError::InvalidSlot);
        },
    };
    swap(&mut book.slots, &mut slots);
    if !book.rebuild_indexes() {
        swap(&mut book.slots, &mut slots);
        return Err(SnapshotError::QuantityOverflow);
    }
    book.set_free_head(free_head);
    Ok(())
}

} // verus!
