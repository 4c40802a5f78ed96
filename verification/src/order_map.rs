//! A flat, pre-sized hash map from order IDs to arena slots.
//!
//! Open addressing with linear probing and multiplicative hashing. The table never grows: an
//! entry that is removed leaves a tombstone behind, which a later insertion takes over.

use crate::arena::{lemma_distinct_indices, NULL_IDX};
use crate::errors::EngineError;
use vstd::prelude::*;

verus! {

/// Multiplier of the hash: 2^64 divided by the golden ratio.
pub const HASH_MULTIPLIER: u64 = 11400714819323198485;

/// Key that marks a vacant position whose entry was removed.
pub const TOMBSTONE: u64 = 0xFFFF_FFFF_FFFF_FFFF;

/// The smallest number that is at least `n` among `p`, `2 * p`, `4 * p` and so on.
pub open spec fn doubled_to(p: nat, n: nat) -> nat
    decreases (if p >= n { 0 } else { n - p }),
{
    if p >= n || p == 0 {
        p
    } else {
        doubled_to(2 * p, n)
    }
}

/// The size of the table for `n` entries: twice the smallest power of two that is at least `n`.
pub open spec fn table_size(n: nat) -> nat {
    2 * doubled_to(1, n)
}

/// Doubling never falls below its start, and stops at its goal.
proof fn lemma_doubled_to(p: nat, n: nat)
    requires
        p > 0,
    ensures
        doubled_to(p, n) >= p,
        doubled_to(p, n) >= n,
        doubled_to(p, n) == p || doubled_to(p, n) < 2 * n,
    decreases (if p >= n { 0 } else { n - p }),
{
    if p < n {
        lemma_doubled_to(2 * p, n);
    }
}

/// The table for `n` entries has more than `n` positions, and no more than four for each entry.
pub proof fn lemma_table_size(n: nat)
    ensures
        n < table_size(n),
        n > 0 ==> table_size(n) <= 4 * n,
        n == 0 ==> table_size(n) == 2,
{
    lemma_doubled_to(1, n);
}

/// A map from order IDs to arena slots.
///
/// Position `i` is taken when `values[i]` is an index. A vacant position is fresh, never written
/// since the table was made, when its key is zero; otherwise it is a tombstone.
pub struct OrderMap {
    /// Order ID at each position.
    pub keys: Vec<u64>,
    /// Arena slot at each position, `NULL_IDX` where the position is vacant.
    pub values: Vec<u32>,
    /// Number of positions.
    pub capacity: usize,
}

impl OrderMap {
    /// Position `i` holds an entry.
    pub open spec fn taken(self, i: int) -> bool {
        self.values@[i] != NULL_IDX
    }

    /// Position `i` ends every probe that reaches it.
    pub open spec fn fresh(self, i: int) -> bool {
        !self.taken(i) && self.keys@[i] == 0
    }

    /// The position where the probe for `key` starts.
    pub open spec fn home(self, key: u64) -> usize {
        (key.wrapping_mul(HASH_MULTIPLIER) as usize) & ((self.capacity - 1) as usize)
    }

    /// The position `n` steps after `start`, around the end of the table.
    pub open spec fn step(self, start: int, n: int) -> int {
        if start + n < self.capacity {
            start + n
        } else {
            start + n - self.capacity
        }
    }

    /// The number of steps from `start` to `i`.
    pub open spec fn distance(self, start: int, i: int) -> int {
        if i >= start {
            i - start
        } else {
            i - start + self.capacity
        }
    }

    /// Position `i` holds the entry for `key`.
    pub open spec fn entry_at(self, key: u64, i: int) -> bool {
        0 <= i < self.capacity && self.taken(i) && self.keys@[i] == key
    }

    /// The table is well formed: no key twice, and every entry within reach of its probe.
    pub open spec fn wf(self) -> bool {
        &&& self.capacity > 0
        &&& self.keys@.len() == self.capacity
        &&& self.values@.len() == self.capacity
        &&& forall|i: int, j: int|
            0 <= i < self.capacity && 0 <= j < self.capacity && #[trigger] self.taken(i)
                && #[trigger] self.taken(j) && self.keys@[i] == self.keys@[j] ==> i == j
        &&& forall|i: int, n: int|
            #![trigger self.taken(i), self.step(self.home(self.keys@[i]) as int, n)]
            0 <= i < self.capacity && self.taken(i) && 0 <= n < self.distance(
                self.home(self.keys@[i]) as int,
                i,
            ) ==> !self.fresh(self.step(self.home(self.keys@[i]) as int, n))
    }

    /// Some position is vacant.
    pub open spec fn has_room(self) -> bool {
        exists|i: int| 0 <= i < self.capacity && !#[trigger] self.taken(i)
    }

    /// Creates an empty table for `capacity` entries, at most half full.
    pub fn new(capacity: usize) -> (map: OrderMap)
        requires
            table_size(capacity as nat) <= usize::MAX,
        ensures
            map.wf(),
            map.capacity == table_size(capacity as nat),
            map@ == Map::<u64, u32>::empty(),
    {
        let mut half: usize = 1;
        proof {
            lemma_doubled_to(1, capacity as nat);
        }
        while half < capacity
            invariant
                half > 0,
                doubled_to(half as nat, capacity as nat) == doubled_to(1, capacity as nat),
                2 * doubled_to(1, capacity as nat) <= usize::MAX,
            decreases (if half >= capacity { 0 } else { capacity - half }),
        {
            proof {
                lemma_doubled_to(2 * half as nat, capacity as nat);
            }
            half = half * 2;
        }
        let size: usize = half * 2;
        let map = OrderMap { keys: vec![0u64; size], values: vec![NULL_IDX; size], capacity: size };
        proof {
            assert(forall|i: int| 0 <= i < size ==> !#[trigger] map.taken(i));
            assert(map@ =~= Map::<u64, u32>::empty());
        }
        map
    }

    /// Returns the position where the probe for `key` starts.
    fn hash(&self, key: u64) -> (position: usize)
        requires
            self.capacity > 0,
        ensures
            position == self.home(key),
            position < self.capacity,
    {
        let hash: u64 = key.wrapping_mul(HASH_MULTIPLIER);
        let mask: usize = self.capacity - 1;
        let wide: usize = hash as usize;
        assert(wide & mask <= mask) by (bit_vector);
        wide & mask
    }

    /// Adds an entry.
    ///
    /// # Errors
    /// Returns `EngineError::OrderAlreadyExists` if the key has an entry already.
    pub fn insert(&mut self, key: u64, value: u32) -> (result: Result<(), EngineError>)
        requires
            old(self).wf(),
            old(self).has_room(),
            value != NULL_IDX,
        ensures
            final(self).wf(),
            final(self).capacity == old(self).capacity,
            match result {
                Ok(_) => !old(self)@.contains_key(key) && final(self)@ == old(self)@.insert(
                    key,
                    value,
                ),
                Err(error) => old(self)@.contains_key(key) && *final(self) == *old(self) && error
                    == EngineError::OrderAlreadyExists,
            },
    {
        let home: usize = self.hash(key);
        let mut idx: usize = home;
        let mut steps: usize = 0;
        let mut vacant: usize = self.capacity;
        while steps < self.capacity
            invariant_except_break
                steps < self.capacity ==> idx == self.step(home as int, steps as int),
            invariant
                *self == *old(self),
                self.wf(),
                home == self.home(key),
                home < self.capacity,
                steps <= self.capacity,
                steps == self.capacity ==> !self@.contains_key(key),
                forall|n: int|
                    0 <= n < steps ==> !self.entry_at(
                        key,
                        #[trigger] self.step(home as int, n),
                    ),
                vacant == self.capacity ==> forall|n: int|
                    0 <= n < steps ==> self.taken(#[trigger] self.step(home as int, n)),
                vacant != self.capacity ==> {
                    &&& vacant < self.capacity
                    &&& !self.taken(vacant as int)
                    &&& forall|n: int|
                        0 <= n < self.distance(home as int, vacant as int) ==> self.taken(
                            #[trigger] self.step(home as int, n),
                        )
                },
            ensures
                vacant == self.capacity ==> steps == self.capacity,
                !self@.contains_key(key),
            decreases self.capacity - steps,
        {
            if self.values[idx] == NULL_IDX {
                if vacant == self.capacity {
                    vacant = idx;
                }
                if self.keys[idx] == 0 {
                    proof {
                        self.lemma_absent_at_fresh(key, steps as int);
                    }
                    break;
                }
            } else if self.keys[idx] == key {
                assert(self.entry_at(key, idx as int));
                return Err(EngineError::OrderAlreadyExists);
            }
            proof {
                if steps + 1 == self.capacity {
                    self.lemma_absent_everywhere(key);
                }
            }
            idx = if idx + 1 == self.capacity { 0 } else { idx + 1 };
            steps = steps + 1;
        }
        proof {
            if vacant == self.capacity {
                let i = choose|i: int| 0 <= i < self.capacity && !#[trigger] self.taken(i);
                assert(self.step(home as int, self.distance(home as int, i)) == i);
            }
        }
        self.keys.set(vacant, key);
        self.values.set(vacant, value);
        proof {
            self.lemma_written(*old(self), key, value, vacant as int);
        }
        Ok(())
    }

    /// Returns the arena slot of the order `key`.
    pub fn lookup(&self, key: u64) -> (slot: Option<u32>)
        requires
            self.wf(),
        ensures
            match slot {
                Some(value) => self@.contains_key(key) && self@[key] == value,
                None => !self@.contains_key(key),
            },
    {
        match self.find(key) {
            Some(position) => Some(self.values[position]),
            None => None,
        }
    }

    /// Removes the entry for `key` and returns whether there was one.
    pub fn remove(&mut self, key: u64) -> (removed: bool)
        requires
            old(self).wf(),
        ensures
            final(self).wf(),
            final(self).capacity == old(self).capacity,
            removed == old(self)@.contains_key(key),
            final(self)@ == old(self)@.remove(key),
    {
        match self.find(key) {
            Some(position) => {
                self.keys.set(position, TOMBSTONE);
                self.values.set(position, NULL_IDX);
                proof {
                    self.lemma_erased(*old(self), key, position as int);
                }
                true
            },
            None => {
                proof {
                    assert(self@.remove(key) =~= self@);
                }
                false
            },
        }
    }

    /// Returns the position of the entry for `key`.
    fn find(&self, key: u64) -> (position: Option<usize>)
        requires
            self.wf(),
        ensures
            match position {
                Some(i) => self.entry_at(key, i as int) && self@.contains_key(key) && self@[key]
                    == self.values@[i as int],
                None => !self@.contains_key(key),
            },
    {
        let home: usize = self.hash(key);
        let mut idx: usize = home;
        let mut steps: usize = 0;
        while steps < self.capacity
            invariant
                self.wf(),
                home == self.home(key),
                home < self.capacity,
                steps <= self.capacity,
                steps < self.capacity ==> idx == self.step(home as int, steps as int),
                forall|n: int|
                    0 <= n < steps ==> !self.entry_at(
                        key,
                        #[trigger] self.step(home as int, n),
                    ),
            decreases self.capacity - steps,
        {
            if self.values[idx] == NULL_IDX {
                if self.keys[idx] == 0 {
                    proof {
                        self.lemma_absent_at_fresh(key, steps as int);
                    }
                    return None;
                }
            } else if self.keys[idx] == key {
                assert(self.entry_at(key, idx as int));
                return Some(idx);
            }
            idx = if idx + 1 == self.capacity { 0 } else { idx + 1 };
            steps = steps + 1;
        }
        proof {
            self.lemma_absent_everywhere(key);
        }
        None
    }

    /// A probe that meets a fresh position has passed every place where its key can be.
    proof fn lemma_absent_at_fresh(self, key: u64, steps: int)
        requires
            self.wf(),
            0 <= steps < self.capacity,
            self.home(key) < self.capacity,
            self.fresh(self.step(self.home(key) as int, steps)),
            forall|n: int|
                0 <= n < steps ==> !self.entry_at(
                    key,
                    #[trigger] self.step(self.home(key) as int, n),
                ),
        ensures
            !self@.contains_key(key),
    {
        let home = self.home(key) as int;
        assert forall|i: int| !self.entry_at(key, i) by {
            if self.entry_at(key, i) {
                let d = self.distance(home, i);
                assert(self.step(home, d) == i);
                assert(self.taken(i));
                if d > steps {
                    assert(!self.fresh(self.step(home, steps)));
                }
            }
        }
    }

    /// A probe around the whole table has passed every position.
    proof fn lemma_absent_everywhere(self, key: u64)
        requires
            self.home(key) < self.capacity,
            forall|n: int|
                0 <= n < self.capacity ==> !self.entry_at(
                    key,
                    #[trigger] self.step(self.home(key) as int, n),
                ),
        ensures
            !self@.contains_key(key),
    {
        let home = self.home(key) as int;
        assert forall|i: int| !self.entry_at(key, i) by {
            if self.entry_at(key, i) {
                assert(self.step(home, self.distance(home, i)) == i);
            }
        }
    }

    /// Writing an entry for a new key into the first vacant position of its probe adds it.
    proof fn lemma_written(self, before: OrderMap, key: u64, value: u32, at: int)
        requires
            before.wf(),
            !before@.contains_key(key),
            0 <= at < before.capacity,
            !before.taken(at),
            before.home(key) < before.capacity,
            value != NULL_IDX,
            forall|n: int|
                0 <= n < before.distance(before.home(key) as int, at) ==> before.taken(
                    #[trigger] before.step(before.home(key) as int, n),
                ),
            self.capacity == before.capacity,
            self.keys@ == before.keys@.update(at, key),
            self.values@ == before.values@.update(at, value),
        ensures
            self.wf(),
            self@ == before@.insert(key, value),
    {
        assert forall|i: int| 0 <= i < self.capacity && i != at implies {
            &&& self.taken(i) == before.taken(i)
            &&& self.keys@[i] == before.keys@[i]
            &&& self.values@[i] == before.values@[i]
        } by {}
        assert forall|i: int| 0 <= i < self.capacity && i != at && self.taken(i) implies
            self.keys@[i] != key by {
            if self.keys@[i] == key {
                assert(before.entry_at(key, i));
            }
        }
        assert forall|i: int, n: int|
            #![trigger self.taken(i), self.step(self.home(self.keys@[i]) as int, n)]
            0 <= i < self.capacity && self.taken(i) && 0 <= n < self.distance(
                self.home(self.keys@[i]) as int,
                i,
            ) implies !self.fresh(self.step(self.home(self.keys@[i]) as int, n)) by {
            let home = self.home(self.keys@[i]) as int;
            assert(home == before.home(self.keys@[i]));
            assert(self.step(home, n) == before.step(home, n));
            if i == at {
                assert(before.taken(before.step(home, n)));
            } else {
                assert(before.taken(i));
                assert(!before.fresh(before.step(home, n)));
            }
        }
        assert forall|k: u64, i: int| k != key implies self.entry_at(k, i) == before.entry_at(
            k,
            i,
        ) by {}
        assert(self.entry_at(key, at));
        assert(self@ =~= before@.insert(key, value)) by {
            assert forall|k: u64| self@.contains_key(k) == before@.insert(key, value).contains_key(
                k,
            ) by {
                if k != key {
                    if before@.contains_key(k) {
                        let i = choose|i: int| before.entry_at(k, i);
                        assert(self.entry_at(k, i));
                    }
                    if self@.contains_key(k) {
                        let i = choose|i: int| self.entry_at(k, i);
                        assert(before.entry_at(k, i));
                    }
                }
            }
            assert forall|k: u64| self@.contains_key(k) implies self@[k] == before@.insert(
                key,
                value,
            )[k] by {
                let i = choose|i: int| self.entry_at(k, i);
                if k != key {
                    let j = choose|j: int| before.entry_at(k, j);
                    assert(before.entry_at(k, i));
                    assert(before.taken(i) && before.taken(j));
                } else {
                    assert(self.taken(i) && self.taken(at));
                }
            }
        }
    }

    /// A taken position holds the entry for its key.
    proof fn lemma_entry(self, i: int)
        requires
            self.wf(),
            0 <= i < self.capacity,
            self.taken(i),
        ensures
            self@.contains_key(self.keys@[i]),
            self@[self.keys@[i]] == self.values@[i],
    {
        let key = self.keys@[i];
        assert(self.entry_at(key, i));
        let j = choose|j: int| self.entry_at(key, j);
        assert(self.taken(j));
    }

    /// A table larger than `n` has room while its values are below `n` and tell their keys.
    pub proof fn lemma_has_room(self, keys: spec_fn(u32) -> u64, n: nat)
        requires
            self.wf(),
            n < self.capacity,
            forall|key: u64| #[trigger]
                self@.contains_key(key) ==> self@[key] < n && keys(self@[key]) == key,
        ensures
            self.has_room(),
    {
        if !self.has_room() {
            assert forall|i: int, j: int| 0 <= i < j < self.capacity implies self.values@[i]
                != self.values@[j] by {
                assert(self.taken(i) && self.taken(j));
                self.lemma_entry(i);
                self.lemma_entry(j);
            }
            assert forall|i: int| 0 <= i < self.values@.len() implies #[trigger] self.values@[i]
                < n by {
                assert(self.taken(i));
                self.lemma_entry(i);
            }
            lemma_distinct_indices(self.values@, n);
        }
    }

    /// Turning the position of an entry into a tombstone removes that entry.
    proof fn lemma_erased(self, before: OrderMap, key: u64, at: int)
        requires
            before.wf(),
            before.entry_at(key, at),
            self.capacity == before.capacity,
            self.keys@ == before.keys@.update(at, TOMBSTONE),
            self.values@ == before.values@.update(at, NULL_IDX),
        ensures
            self.wf(),
            self@ == before@.remove(key),
    {
        assert forall|i: int| 0 <= i < self.capacity && i != at implies {
            &&& self.taken(i) == before.taken(i)
            &&& self.keys@[i] == before.keys@[i]
            &&& self.values@[i] == before.values@[i]
        } by {}
        assert(!self.taken(at));
        assert(before.taken(at));
        assert forall|i: int, n: int|
            #![trigger self.taken(i), self.step(self.home(self.keys@[i]) as int, n)]
            0 <= i < self.capacity && self.taken(i) && 0 <= n < self.distance(
                self.home(self.keys@[i]) as int,
                i,
            ) implies !self.fresh(self.step(self.home(self.keys@[i]) as int, n)) by {
            let home = self.home(self.keys@[i]) as int;
            assert(home == before.home(self.keys@[i]));
            assert(self.step(home, n) == before.step(home, n));
            assert(before.taken(i));
            assert(!before.fresh(before.step(home, n)));
        }
        assert(self@ =~= before@.remove(key)) by {
            assert forall|k: u64| self@.contains_key(k) == before@.remove(key).contains_key(k) by {
                if before@.remove(key).contains_key(k) {
                    let i = choose|i: int| before.entry_at(k, i);
                    assert(self.entry_at(k, i));
                }
                if self@.contains_key(k) {
                    let i = choose|i: int| self.entry_at(k, i);
                    assert(before.entry_at(k, i));
                    assert(before.taken(i));
                }
            }
            assert forall|k: u64| self@.contains_key(k) implies self@[k] == before@.remove(
                key,
            )[k] by {
                let i = choose|i: int| self.entry_at(k, i);
                let j = choose|j: int| before.entry_at(k, j);
                assert(before.entry_at(k, i));
                assert(before.taken(i) && before.taken(j));
            }
        }
    }
}

impl View for OrderMap {
    type V = Map<u64, u32>;

    /// The entries of the table.
    open spec fn view(&self) -> Map<u64, u32> {
        Map::new(
            |key: u64| exists|i: int| self.entry_at(key, i),
            |key: u64| self.values@[choose|i: int| self.entry_at(key, i)],
        )
    }
}

} // verus!
