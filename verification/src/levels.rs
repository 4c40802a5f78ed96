//! Price levels, and walks over the levels of one side in price order.

use crate::arena::NULL_IDX;
use std::collections::btree_map::Iter;
use std::collections::BTreeMap;
use vstd::prelude::*;
use vstd::std_specs::btree::increasing_seq;
use vstd::std_specs::cmp::OrdSpec;
use vstd::std_specs::iter::IteratorSpec;

verus! {

/// A price level: the ends of the queue of orders at one price.
#[derive(Debug, Clone, Copy)]
pub struct PriceLevel {
    /// Fixed-point price (scaled by 10,000).
    pub price: u64,
    /// Total quantity that rests at this price (scaled by 10,000).
    pub total_quantity: u64,
    /// Slot of the first order of the queue.
    pub head_idx: u32,
    /// Slot of the last order of the queue.
    pub tail_idx: u32,
}

impl PriceLevel {
    /// Creates a price level without orders.
    pub fn new(price: u64) -> (level: PriceLevel)
        ensures
            level == (PriceLevel {
                price,
                total_quantity: 0,
                head_idx: NULL_IDX,
                tail_idx: NULL_IDX,
            }),
    {
        PriceLevel { price, total_quantity: 0, head_idx: NULL_IDX, tail_idx: NULL_IDX }
    }
}

/// The prices of `entries` rise strictly.
pub open spec fn ascending(entries: Seq<(&u64, &PriceLevel)>) -> bool {
    forall|i: int, j: int| 0 <= i < j < entries.len() ==> *entries[i].0 < *entries[j].0
}

/// `entries` are the entries of `levels`.
pub open spec fn lists(entries: Seq<(&u64, &PriceLevel)>, levels: Map<u64, PriceLevel>) -> bool {
    &&& forall|i: int|
        0 <= i < entries.len() ==> levels.contains_key(*(#[trigger] entries[i]).0)
            && levels[*entries[i].0] == *entries[i].1
    &&& forall|price: u64| #[trigger]
        levels.contains_key(price) ==> exists|i: int|
            0 <= i < entries.len() && *(#[trigger] entries[i]).0 == price
}

/// A sequence of entries whose keys increase is ascending.
proof fn lemma_ascending(entries: Seq<(&u64, &PriceLevel)>)
    requires
        increasing_seq(entries.map_values(|entry: (&u64, &PriceLevel)| *entry.0)),
    ensures
        ascending(entries),
{
    let keys = entries.map_values(|entry: (&u64, &PriceLevel)| *entry.0);
    assert(vstd::laws_cmp::obeys_cmp::<u64>());
    assert forall|i: int, j: int| 0 <= i < j < entries.len() implies *entries[i].0
        < *entries[j].0 by {
        assert(keys[i].cmp_spec(&keys[j]) is Less);
    }
}

/// Walks over the levels of one side by rising price.
pub fn in_price_order<'a>(levels: &'a BTreeMap<u64, PriceLevel>) -> (iter: Iter<
    'a,
    u64,
    PriceLevel,
>)
    ensures
        ascending(iter.remaining()),
        lists(iter.remaining(), levels@),
        iter.decrease() is Some,
        iter.initial_value_relation(&iter),
{
    let iter = levels.iter();
    proof {
        assert(vstd::laws_cmp::obeys_cmp::<u64>());
        lemma_ascending(iter.remaining());
    }
    iter
}

/// Returns the lowest price of one side.
pub fn lowest_price(levels: &BTreeMap<u64, PriceLevel>) -> (price: Option<u64>)
    ensures
        match price {
            Some(lowest) => levels@.contains_key(lowest) && forall|p: u64| #[trigger]
                levels@.contains_key(p) ==> lowest <= p,
            None => forall|p: u64| !levels@.contains_key(p),
        },
{
    let iter = in_price_order(levels);
    for entry in it: iter
        invariant
            it.index() == 0,
            ascending(it.seq()),
            lists(it.seq(), levels@),
    {
        return Some(*entry.0);
    }
    None
}

/// Returns the highest price of one side.
pub fn highest_price(levels: &BTreeMap<u64, PriceLevel>) -> (price: Option<u64>)
    ensures
        match price {
            Some(highest) => levels@.contains_key(highest) && forall|p: u64| #[trigger]
                levels@.contains_key(p) ==> highest >= p,
            None => forall|p: u64| !levels@.contains_key(p),
        },
{
    let iter = in_price_order(levels);
    let ghost rising = iter;
    let falling = iter.rev();
    proof {
        lemma_reversed(rising.remaining(), levels@);
    }
    for entry in it: falling
        invariant
            it.index() == 0,
            ascending(it.seq().reverse()),
            lists(it.seq(), levels@),
    {
        proof {
            let rising = it.seq().reverse();
            assert forall|p: u64| #[trigger] levels@.contains_key(p) implies *entry.0 >= p by {
                let i = choose|i: int| 0 <= i < it.seq().len() && *(#[trigger] it.seq()[i]).0 == p;
                assert(rising[rising.len() - 1 - i] == it.seq()[i]);
                assert(rising[rising.len() - 1] == it.seq()[0]);
            }
        }
        return Some(*entry.0);
    }
    None
}

/// Reversed, entries are the entries of the same levels, and reversed again they rise.
pub proof fn lemma_reversed(entries: Seq<(&u64, &PriceLevel)>, levels: Map<u64, PriceLevel>)
    requires
        ascending(entries),
        lists(entries, levels),
    ensures
        ascending(entries.reverse().reverse()),
        lists(entries.reverse(), levels),
{
    let falling = entries.reverse();
    assert(falling.reverse() =~= entries);
    assert forall|i: int| 0 <= i < falling.len() implies levels.contains_key(
        *(#[trigger] falling[i]).0,
    ) && levels[*falling[i].0] == *falling[i].1 by {
        assert(falling[i] == entries[entries.len() - 1 - i]);
    }
    assert forall|price: u64| #[trigger] levels.contains_key(price) implies exists|i: int|
        0 <= i < falling.len() && *(#[trigger] falling[i]).0 == price by {
        let i = choose|i: int| 0 <= i < entries.len() && *(#[trigger] entries[i]).0 == price;
        assert(falling[entries.len() - 1 - i] == entries[i]);
    }
}

} // verus!
