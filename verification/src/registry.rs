//! The record of which zones are live and of what the others owe.

use vstd::prelude::*;
use crate::archetype::Seed;
use crate::generator::spec_generated_tallies;
use crate::generator::spec_rand_coordinates;
use crate::generator::MAX_COUNT;
use crate::grid::Position;
use crate::grid::Zone;
use crate::grid::ZoneGrid;
use crate::index::KeySlots;
use crate::population::roster_of;
use crate::population::spec_spawn_plan;
use crate::population::spec_tallied;
use crate::population::Population;
use crate::population::SpawnRequest;
use crate::population::Tally;

verus! {

/// Where a zone stands that has been visited. A zone of which the registry
/// knows nothing has not been visited yet.
pub enum ZoneState {
    /// The zone's objects are in the world.
    Spawned,
    /// The zone's objects are gone; the population is what it is owed.
    Despawned(Population),
}

/// A zone's state as contracts see it: live, or despawned and owed what the
/// tallies count.
pub enum ZoneView {
    Materialized,
    Dematerialized(Seq<Tally>),
}

/// The state after one more object of `seed` was taken out of the world.
pub open spec fn spec_absorb(state: ZoneView, seed: Seed) -> ZoneView {
    match state {
        ZoneView::Materialized => ZoneView::Dematerialized(spec_tallied(Seq::empty(), seed)),
        ZoneView::Dematerialized(owed) => ZoneView::Dematerialized(spec_tallied(owed, seed)),
    }
}

/// The state of `zone` after an object of `seed` was evicted into it. A
/// zone that was never visited first gets what it holds when fresh.
pub open spec fn spec_evicted(states: Map<Zone, ZoneView>, zone: Zone, seed: Seed) -> ZoneView {
    if states.contains_key(zone) {
        spec_absorb(states[zone], seed)
    } else {
        ZoneView::Dematerialized(spec_tallied(spec_generated_tallies(zone), seed))
    }
}

/// What has to be spawned to bring `zone` to life: what a fresh zone holds
/// if it was never visited, what it is owed if it was despawned, nothing if
/// it is live.
pub open spec fn spec_owed(states: Map<Zone, ZoneView>, zone: Zone) -> Seq<Tally> {
    if states.contains_key(zone) {
        match states[zone] {
            ZoneView::Materialized => Seq::empty(),
            ZoneView::Dematerialized(owed) => owed,
        }
    } else {
        spec_generated_tallies(zone)
    }
}

/// The requests that bring `zone` to life: one for each object it is owed,
/// tally by tally, the `k`-th at the `k`-th of the zone's shuffled spawn
/// points, counted round and round.
pub open spec fn spec_zone_plan(states: Map<Zone, ZoneView>, grid: ZoneGrid, zone: Zone) -> Seq<
    SpawnRequest,
> {
    spec_spawn_plan(roster_of(spec_owed(states, zone)), spec_rand_coordinates(grid, zone))
}

/// The larger of the peak so far and what a zone is owed now.
pub open spec fn spec_raised(peak: nat, owed: nat) -> nat {
    if owed > peak {
        owed
    } else {
        peak
    }
}

/// The key under which a zone is filed.
pub open spec fn zone_key(zone: Zone) -> (i64, i64) {
    (zone.row, zone.col)
}

impl ZoneState {
    pub open spec fn wf(&self) -> bool {
        match self {
            ZoneState::Spawned => true,
            ZoneState::Despawned(pop) => pop.wf(),
        }
    }

    pub open spec fn view(&self) -> ZoneView {
        match self {
            ZoneState::Spawned => ZoneView::Materialized,
            ZoneState::Despawned(pop) => ZoneView::Dematerialized(pop.spec_tallies()),
        }
    }

    /// How many objects the state owes.
    pub open spec fn owed_len(&self) -> nat {
        match self {
            ZoneState::Spawned => 0,
            ZoneState::Despawned(pop) => pop.roster().len(),
        }
    }

    /// How many objects the state owes.
    pub fn owed(&self) -> (n: u32)
        requires
            self.wf(),
        ensures
            n == self.owed_len(),
    {
        match self {
            ZoneState::Spawned => 0,
            ZoneState::Despawned(pop) => pop.size(),
        }
    }

    /// Takes in an object that left the world: a live zone becomes a
    /// despawned one that is owed this object, a despawned one is owed one
    /// more.
    pub fn insert(&mut self, seed: Seed)
        requires
            old(self).wf(),
            old(self).owed_len() < u32::MAX,
        ensures
            final(self).wf(),
            final(self)@ == spec_absorb(old(self)@, seed),
            final(self).owed_len() == old(self).owed_len() + 1,
    {
        match self {
            ZoneState::Spawned => {
                let mut pop = Population::new();
                pop.insert(seed);
                *self = ZoneState::Despawned(pop);
            },
            ZoneState::Despawned(pop) => {
                pop.insert(seed);
            },
        }
    }
}

impl Population {
    /// One request per object owed, each at the next of the shuffled spawn
    /// points of `zone`.
    pub fn spawn(&self, grid: &ZoneGrid, zone: Zone) -> (plan: Vec<SpawnRequest>)
        requires
            self.wf(),
            grid.in_world(zone),
        ensures
            plan@ == spec_spawn_plan(self.roster(), spec_rand_coordinates(*grid, zone)),
    {
        let coords: Vec<Position> = zone.rand_coordinates(grid);
        self.spawn_at(&coords)
    }
}

/// The state of every zone that was ever visited. Zones are kept in the
/// order in which they were first touched and are never forgotten.
pub struct Zones {
    slots: KeySlots,
    states: Vec<ZoneState>,
    peak: u32,
}

impl View for Zones {
    type V = Map<Zone, ZoneView>;

    /// The visited zones, each with its state.
    closed spec fn view(&self) -> Map<Zone, ZoneView> {
        Map::new(
            |zone: Zone| self.slots.has(zone_key(zone)),
            |zone: Zone| self.states@[self.slots.slot_of(zone_key(zone))]@,
        )
    }
}

impl Zones {
    /// The most that any one zone has been owed so far, and `MAX_COUNT` at
    /// the least. No zone is owed more.
    pub closed spec fn spec_peak(&self) -> nat {
        self.peak as nat
    }

    /// The visited zones in the order in which they were first touched.
    pub closed spec fn spec_order(&self) -> Seq<Zone> {
        Seq::new(
            self.slots.keys().len(),
            |i: int| Zone { row: self.slots.keys()[i].0, col: self.slots.keys()[i].1 },
        )
    }

    pub closed spec fn wf(&self) -> bool {
        &&& self.slots.wf()
        &&& self.slots.keys().len() == self.states@.len()
        &&& self.peak >= MAX_COUNT
        &&& forall|i: int| 0 <= i < self.states@.len() ==> (#[trigger] self.states@[i]).wf()
        &&& forall|i: int|
            0 <= i < self.states@.len() ==> (#[trigger] self.states@[i]).owed_len() <= self.peak
    }

    /// The order lists the visited zones, each once; no zone owes more than
    /// the peak.
    pub proof fn lemma_wf(&self, zone: Zone)
        requires
            self.wf(),
        ensures
            self@.contains_key(zone) <==> self.spec_order().contains(zone),
            self.spec_peak() >= MAX_COUNT,
            self@.contains_key(zone) ==> roster_of(spec_owed(self@, zone)).len()
                <= self.spec_peak(),
            forall|i: int, j: int|
                0 <= i < self.spec_order().len() && 0 <= j < self.spec_order().len() && i != j
                    ==> self.spec_order()[i] != self.spec_order()[j],
    {
        self.slots.lemma_slots(zone_key(zone));
        if self.slots.keys().contains(zone_key(zone)) {
            let i = choose|i: int|
                0 <= i < self.slots.keys().len() && self.slots.keys()[i] == zone_key(zone);
            assert(self.spec_order()[i] == zone);
        }
        if self.spec_order().contains(zone) {
            let i = choose|i: int| 0 <= i < self.spec_order().len() && self.spec_order()[i] == zone;
            assert(self.slots.keys()[i] == zone_key(zone));
        }
        assert forall|i: int, j: int|
            0 <= i < self.spec_order().len() && 0 <= j < self.spec_order().len() && i
                != j implies self.spec_order()[i] != self.spec_order()[j] by {
            if self.spec_order()[i] == self.spec_order()[j] {
                self.slots.lemma_distinct(i, j);
            }
        }
        if self@.contains_key(zone) {
            let at = self.slots.slot_of(zone_key(zone));
            assert(self.states@[at].owed_len() <= self.peak);
        }
    }

    /// The registry in which no zone was visited.
    pub fn new() -> (zones: Zones)
        ensures
            zones.wf(),
            zones@ == Map::<Zone, ZoneView>::empty(),
            zones.spec_peak() == MAX_COUNT,
    {
        let zones = Zones { slots: KeySlots::new(), states: Vec::new(), peak: MAX_COUNT };
        proof {
            assert forall|zone: Zone| !zones.slots.has(zone_key(zone)) by {
                zones.slots.lemma_slots(zone_key(zone));
            }
            assert(zones@ =~= Map::<Zone, ZoneView>::empty());
        }
        zones
    }

    pub fn peak(&self) -> (peak: u32)
        ensures
            peak == self.spec_peak(),
    {
        self.peak
    }

    /// How many zones were visited.
    pub fn len(&self) -> (n: usize)
        requires
            self.wf(),
        ensures
            n == self.spec_order().len(),
    {
        self.slots.len()
    }

    /// The `i`-th zone in the order of first touch.
    pub fn zone_at(&self, i: usize) -> (zone: Zone)
        requires
            self.wf(),
            i < self.spec_order().len(),
        ensures
            zone == self.spec_order()[i as int],
            self@.contains_key(zone),
    {
        let key: (i64, i64) = self.slots.key_at(i);
        let zone = Zone { row: key.0, col: key.1 };
        proof {
            self.lemma_wf(zone);
        }
        zone
    }

    /// The state of `zone`, or nothing if it was never visited.
    pub fn get(&self, zone: Zone) -> (state: Option<&ZoneState>)
        requires
            self.wf(),
        ensures
            match state {
                Some(found) => self@.contains_key(zone) && self@[zone] == found@ && found.wf(),
                None => !self@.contains_key(zone),
            },
    {
        match self.slots.find((zone.row, zone.col)) {
            Some(slot) => Some(&self.states[slot]),
            None => None,
        }
    }

    /// Whether the objects of `zone` are in the world.
    pub fn is_spawned(&self, zone: Zone) -> (live: bool)
        requires
            self.wf(),
        ensures
            live <==> self@.contains_key(zone) && self@[zone] is Materialized,
    {
        match self.get(zone) {
            Some(ZoneState::Spawned) => true,
            _ => false,
        }
    }

    /// Putting a state into the slot of a visited zone gives the zone that
    /// state and leaves every other zone as it was.
    proof fn lemma_replaced(before: Zones, after: Zones, zone: Zone, state: ZoneState)
        requires
            before.slots.wf(),
            before.slots.keys().len() == before.states@.len(),
            before.slots.has(zone_key(zone)),
            after.slots == before.slots,
            after.states@ == before.states@.update(before.slots.slot_of(zone_key(zone)), state),
        ensures
            after@ == before@.insert(zone, state@),
            after.spec_order() == before.spec_order(),
    {
        before.slots.lemma_slots(zone_key(zone));
        assert forall|other: Zone| #[trigger]
            after@.contains_key(other) implies after@[other] == before@.insert(
            zone,
            state@,
        )[other] by {
            before.slots.lemma_slots(zone_key(other));
        }
        assert(after@ =~= before@.insert(zone, state@));
        assert(after.spec_order() =~= before.spec_order());
    }

    /// Giving a zone that was never visited the next slot, with a state in
    /// it, gives the zone that state and leaves every other zone as it was.
    proof fn lemma_added(before: Zones, after: Zones, zone: Zone, state: ZoneState)
        requires
            before.slots.wf(),
            before.slots.keys().len() == before.states@.len(),
            !before.slots.has(zone_key(zone)),
            after.slots.keys() == before.slots.keys().push(zone_key(zone)),
            forall|k: (i64, i64)| #[trigger]
                after.slots.has(k) <==> before.slots.has(k) || k == zone_key(zone),
            forall|k: (i64, i64)|
                #[trigger] after.slots.slot_of(k) == (if k == zone_key(zone) {
                    before.slots.keys().len() as int
                } else {
                    before.slots.slot_of(k)
                }),
            after.states@ == before.states@.push(state),
        ensures
            after@ == before@.insert(zone, state@),
            after.spec_order() == before.spec_order().push(zone),
    {
        assert forall|other: Zone| #[trigger]
            after@.contains_key(other) implies after@[other] == before@.insert(
            zone,
            state@,
        )[other] by {
            before.slots.lemma_slots(zone_key(other));
        }
        assert(after@ =~= before@.insert(zone, state@));
        assert(after.spec_order() =~= before.spec_order().push(zone));
    }

    /// Sets the state of `zone`, visited or not.
    fn put(&mut self, zone: Zone, state: ZoneState)
        requires
            old(self).wf(),
            state.wf(),
            state.owed_len() <= old(self).spec_peak(),
        ensures
            final(self).wf(),
            final(self)@ == old(self)@.insert(zone, state@),
            final(self).spec_peak() == old(self).spec_peak(),
            final(self).spec_order() == (if old(self)@.contains_key(zone) {
                old(self).spec_order()
            } else {
                old(self).spec_order().push(zone)
            }),
    {
        let key: (i64, i64) = (zone.row, zone.col);
        let ghost put: ZoneState = state;
        match self.slots.find(key) {
            Some(slot) => {
                self.states.set(slot, state);
                proof {
                    Zones::lemma_replaced(*old(self), *self, zone, put);
                }
            },
            None => {
                self.slots.push(key);
                self.states.push(state);
                proof {
                    Zones::lemma_added(*old(self), *self, zone, put);
                }
            },
        }
    }

    /// Marks `zone` as live, whatever it was before.
    pub fn mark_spawned(&mut self, zone: Zone)
        requires
            old(self).wf(),
        ensures
            final(self).wf(),
            final(self)@ == old(self)@.insert(zone, ZoneView::Materialized),
            final(self).spec_peak() == old(self).spec_peak(),
    {
        self.put(zone, ZoneState::Spawned);
    }

    /// Marks `zone` as despawned and owed nothing, whatever it was before.
    pub fn mark_despawned(&mut self, zone: Zone)
        requires
            old(self).wf(),
        ensures
            final(self).wf(),
            final(self)@ == old(self)@.insert(zone, ZoneView::Dematerialized(Seq::empty())),
            final(self).spec_peak() == old(self).spec_peak(),
    {
        self.put(zone, ZoneState::Despawned(Population::new()));
    }

    /// Records that an object of `seed` left the world inside `zone`. A live
    /// zone becomes a despawned one that is owed this object; a despawned
    /// zone is owed one more; a zone never visited is owed what it holds when
    /// fresh, and this object. The peak rises to what the zone is owed now,
    /// where that is more.
    pub fn insert(&mut self, zone: Zone, seed: Seed)
        requires
            old(self).wf(),
            old(self).spec_peak() < u32::MAX,
        ensures
            final(self).wf(),
            final(self)@ == old(self)@.insert(zone, spec_evicted(old(self)@, zone, seed)),
            final(self).spec_peak() == spec_raised(
                old(self).spec_peak(),
                roster_of(spec_owed(final(self)@, zone)).len(),
            ),
            final(self).spec_peak() <= old(self).spec_peak() + 1,
    {
        let key: (i64, i64) = (zone.row, zone.col);
        match self.slots.find(key) {
            Some(slot) => {
                let mut state = ZoneState::Spawned;
                core::mem::swap(&mut self.states[slot], &mut state);
                state.insert(seed);
                let owed: u32 = state.owed();
                let ghost put: ZoneState = state;
                self.states.set(slot, state);
                if owed > self.peak {
                    self.peak = owed;
                }
                proof {
                    assert(self.states@ =~= old(self).states@.update(slot as int, put));
                    Zones::lemma_replaced(*old(self), *self, zone, put);
                }
            },
            None => {
                let mut state = ZoneState::Despawned(Population::generate(zone));
                state.insert(seed);
                let owed: u32 = state.owed();
                let ghost put: ZoneState = state;
                self.slots.push(key);
                self.states.push(state);
                if owed > self.peak {
                    self.peak = owed;
                }
                proof {
                    Zones::lemma_added(*old(self), *self, zone, put);
                }
            },
        }
    }

    /// Brings `zone` to life. Unless it is live already, everything it is
    /// owed is requested, each object at the next of the zone's shuffled
    /// spawn points, and the zone is marked live.
    pub fn spawn(&mut self, grid: &ZoneGrid, zone: Zone) -> (plan: Vec<SpawnRequest>)
        requires
            old(self).wf(),
            grid.in_world(zone),
        ensures
            final(self).wf(),
            final(self)@ == old(self)@.insert(zone, ZoneView::Materialized),
            final(self).spec_peak() == old(self).spec_peak(),
            plan@ == spec_zone_plan(old(self)@, *grid, zone),
    {
        let plan: Vec<SpawnRequest> = match self.get(zone) {
            None => Population::generate(zone).spawn(grid, zone),
            Some(ZoneState::Despawned(pop)) => pop.spawn(grid, zone),
            Some(ZoneState::Spawned) => {
                let plan: Vec<SpawnRequest> = Vec::new();
                proof {
                    assert(plan@ =~= spec_zone_plan(self@, *grid, zone));
                }
                plan
            },
        };
        self.put(zone, ZoneState::Spawned);
        plan
    }
}

} // verus!
