//! Numbered slots that are found by key: the keys in the order in which they
//! came, and a hash index from each key to its number.

use vstd::prelude::*;
use bevy::utils::HashMap;

verus! {

/// A hash map from pairs of integers to slot numbers, kept in the engine's
/// `bevy::utils::HashMap`.
#[verifier::external_body]
pub struct PairIndex {
    map: HashMap<(i64, i64), usize>,
}

/// What a `PairIndex` maps to what.
pub uninterp spec fn index_entries(index: PairIndex) -> Map<(i64, i64), usize>;

impl PairIndex {
    /// Calls `HashMap::default`. Trusted: that the new map is empty.
    #[verifier::external_body]
    pub(crate) fn new() -> (made: PairIndex)
        ensures
            index_entries(made) =~= Map::empty(),
    {
        PairIndex { map: HashMap::default() }
    }

    /// Calls `HashMap::get`. Trusted: that it finds the slot filed under
    /// `key`, and nothing where no slot was filed.
    #[verifier::external_body]
    pub(crate) fn get(&self, key: (i64, i64)) -> (slot: Option<usize>)
        ensures
            slot == (if index_entries(*self).contains_key(key) {
                Some(index_entries(*self)[key])
            } else {
                None
            }),
    {
        self.map.get(&key).copied()
    }

    /// Calls `HashMap::insert`. Trusted: that afterwards `key` maps to
    /// `slot` and every other key to what it mapped to before.
    #[verifier::external_body]
    pub(crate) fn insert(&mut self, key: (i64, i64), slot: usize)
        ensures
            index_entries(*final(self)) == index_entries(*old(self)).insert(key, slot),
    {
        self.map.insert(key, slot);
    }
}

/// Keys in the order of their arrival, each with the number of its slot.
pub struct KeySlots {
    keys: Vec<(i64, i64)>,
    index: PairIndex,
}

impl KeySlots {
    /// The keys, the one of slot 0 first.
    pub closed spec fn keys(&self) -> Seq<(i64, i64)> {
        self.keys@
    }

    /// The index knows every key under its slot number, and nothing else.
    pub closed spec fn wf(&self) -> bool {
        &&& forall|i: int|
            0 <= i < self.keys@.len() ==> index_entries(self.index).contains_key(
                #[trigger] self.keys@[i],
            ) && index_entries(self.index)[self.keys@[i]] == i
        &&& forall|k: (i64, i64)| #[trigger]
            index_entries(self.index).contains_key(k) ==> index_entries(self.index)[k]
                < self.keys@.len() && self.keys@[index_entries(self.index)[k] as int] == k
    }

    /// Whether `key` has a slot.
    pub closed spec fn has(&self, key: (i64, i64)) -> bool {
        index_entries(self.index).contains_key(key)
    }

    /// The slot of `key`, where it has one.
    pub closed spec fn slot_of(&self, key: (i64, i64)) -> int {
        index_entries(self.index)[key] as int
    }

    /// The keys with a slot are those in `keys`, each at its slot.
    pub proof fn lemma_slots(&self, key: (i64, i64))
        requires
            self.wf(),
        ensures
            self.has(key) <==> self.keys().contains(key),
            self.has(key) ==> 0 <= self.slot_of(key) < self.keys().len() && self.keys()[self.slot_of(
                key,
            )] == key,
    {
        if self.keys().contains(key) {
            let i = choose|i: int| 0 <= i < self.keys@.len() && self.keys@[i] == key;
            assert(index_entries(self.index).contains_key(self.keys@[i]));
        }
    }

    /// No key has two slots.
    pub proof fn lemma_distinct(&self, i: int, j: int)
        requires
            self.wf(),
            0 <= i < self.keys().len(),
            0 <= j < self.keys().len(),
            self.keys()[i] == self.keys()[j],
        ensures
            i == j,
    {
    }

    pub fn new() -> (slots: KeySlots)
        ensures
            slots.wf(),
            slots.keys() == Seq::<(i64, i64)>::empty(),
    {
        KeySlots { keys: Vec::new(), index: PairIndex::new() }
    }

    pub fn len(&self) -> (n: usize)
        ensures
            n == self.keys().len(),
    {
        self.keys.len()
    }

    /// The key of slot `slot`.
    pub fn key_at(&self, slot: usize) -> (key: (i64, i64))
        requires
            slot < self.keys().len(),
        ensures
            key == self.keys()[slot as int],
    {
        self.keys[slot]
    }

    /// The slot of `key`, if it has one.
    pub fn find(&self, key: (i64, i64)) -> (slot: Option<usize>)
        requires
            self.wf(),
        ensures
            match slot {
                Some(i) => self.has(key) && i == self.slot_of(key) && i < self.keys().len()
                    && self.keys()[i as int] == key,
                None => !self.has(key) && !self.keys().contains(key),
            },
    {
        proof {
            self.lemma_slots(key);
        }
        self.index.get(key)
    }

    /// Gives `key`, which has no slot yet, the next one.
    pub fn push(&mut self, key: (i64, i64)) -> (slot: usize)
        requires
            old(self).wf(),
            !old(self).keys().contains(key),
        ensures
            final(self).wf(),
            final(self).keys() == old(self).keys().push(key),
            slot == old(self).keys().len(),
            forall|k: (i64, i64)| #[trigger] final(self).has(k) <==> old(self).has(k) || k == key,
            forall|k: (i64, i64)|
                #[trigger] final(self).slot_of(k) == (if k == key {
                    slot as int
                } else {
                    old(self).slot_of(k)
                }),
    {
        let slot: usize = self.keys.len();
        self.keys.push(key);
        self.index.insert(key, slot);
        proof {
            assert forall|i: int| 0 <= i < self.keys@.len() implies index_entries(
                self.index,
            ).contains_key(#[trigger] self.keys@[i]) && index_entries(self.index)[self.keys@[i]]
                == i by {
                if i < slot {
                    assert(old(self).keys@[i] == self.keys@[i]);
                    assert(old(self).keys@.contains(old(self).keys@[i]));
                }
            }
        }
        slot
    }
}

} // verus!
