//! What a zone owes: for each seed, how many objects of it.

use vstd::prelude::*;
use vstd::multiset::Multiset;
use vstd::seq_lib::lemma_multiset_commutative;
use crate::archetype::lemma_key_injective;
use crate::archetype::Seed;
use crate::grid::Position;
use crate::index::KeySlots;

verus! {

/// One seed with the number of objects owed of it.
#[derive(Clone, Copy, Debug, PartialEq, Eq, Structural)]
pub struct Tally {
    pub seed: Seed,
    pub count: u32,
}

/// An order to create one object.
#[derive(Clone, Copy, Debug, PartialEq, Eq, Structural)]
pub struct SpawnRequest {
    pub seed: Seed,
    pub position: Position,
}

/// `n` times the same seed.
pub open spec fn run(seed: Seed, n: nat) -> Seq<Seed> {
    Seq::new(n, |i: int| seed)
}

/// The objects that the tallies stand for, one entry each: the first tally's
/// seed as often as its count says, then the second's, and so on.
pub open spec fn roster_of(tallies: Seq<Tally>) -> Seq<Seed>
    decreases tallies.len(),
{
    if tallies.len() == 0 {
        Seq::empty()
    } else {
        roster_of(tallies.drop_last()) + run(tallies.last().seed, tallies.last().count as nat)
    }
}

/// No seed has two tallies.
pub open spec fn distinct_seeds(tallies: Seq<Tally>) -> bool {
    forall|i: int, j: int|
        0 <= i < tallies.len() && 0 <= j < tallies.len() && i != j ==> (#[trigger] tallies[i]).seed
            != (#[trigger] tallies[j]).seed
}

/// Whether some tally is for `seed`.
pub open spec fn has_tally(tallies: Seq<Tally>, seed: Seed) -> bool {
    exists|i: int| 0 <= i < tallies.len() && (#[trigger] tallies[i]).seed == seed
}

/// The tallies after one more object of `seed` was counted: the tally of
/// the seed counts one more, or, where the seed had none, a new tally of
/// one stands at the end.
pub open spec fn spec_tallied(tallies: Seq<Tally>, seed: Seed) -> Seq<Tally> {
    if has_tally(tallies, seed) {
        let i = choose|i: int| 0 <= i < tallies.len() && (#[trigger] tallies[i]).seed == seed;
        tallies.update(i, Tally { seed, count: (tallies[i].count + 1) as u32 })
    } else {
        tallies.push(Tally { seed, count: 1 })
    }
}

/// The tallies after the objects of `seeds` were counted one after the
/// other.
pub open spec fn spec_tally_all(tallies: Seq<Tally>, seeds: Seq<Seed>) -> Seq<Tally>
    decreases seeds.len(),
{
    if seeds.len() == 0 {
        tallies
    } else {
        spec_tallied(spec_tally_all(tallies, seeds.drop_last()), seeds.last())
    }
}

/// Tallies as a population keeps them: one per seed, none empty, and in
/// all no more objects than a counter can hold.
pub open spec fn tallies_sound(tallies: Seq<Tally>) -> bool {
    &&& distinct_seeds(tallies)
    &&& forall|i: int| 0 <= i < tallies.len() ==> (#[trigger] tallies[i]).count >= 1
    &&& roster_of(tallies).len() <= u32::MAX
}

/// A multiset of seeds, kept as one tally per seed in the order in which the
/// seeds first came.
pub struct Population {
    slots: KeySlots,
    tallies: Vec<Tally>,
    total: u32,
}

impl View for Population {
    type V = Multiset<Seed>;

    /// The objects owed, regardless of order.
    open spec fn view(&self) -> Multiset<Seed> {
        self.roster().to_multiset()
    }
}

impl Population {
    pub closed spec fn spec_tallies(&self) -> Seq<Tally> {
        self.tallies@
    }

    /// The objects owed, in the order in which they are spawned.
    pub open spec fn roster(&self) -> Seq<Seed> {
        roster_of(self.spec_tallies())
    }

    /// Every seed has its own tally, no tally is empty, and the total fits
    /// the counters.
    pub closed spec fn wf(&self) -> bool {
        &&& self.slots.wf()
        &&& self.slots.keys().len() == self.tallies@.len()
        &&& forall|i: int|
            0 <= i < self.tallies@.len() ==> self.slots.keys()[i] == (
            #[trigger] self.tallies@[i]).seed.spec_key()
        &&& forall|i: int| 0 <= i < self.tallies@.len() ==> (#[trigger] self.tallies@[i]).count >= 1
        &&& self.roster().len() == self.total
    }

    /// What `wf` promises of the tallies.
    pub proof fn lemma_wf(&self)
        requires
            self.wf(),
        ensures
            tallies_sound(self.spec_tallies()),
            self@.len() <= u32::MAX,
    {
        assert forall|i: int, j: int|
            0 <= i < self.tallies@.len() && 0 <= j < self.tallies@.len() && i != j implies (
        #[trigger] self.tallies@[i]).seed != (#[trigger] self.tallies@[j]).seed by {
            if self.tallies@[i].seed == self.tallies@[j].seed {
                self.slots.lemma_distinct(i, j);
            }
        }
        self.roster().to_multiset_ensures();
    }

    /// The population that owes nothing.
    pub fn new() -> (pop: Population)
        ensures
            pop.wf(),
            pop.spec_tallies() == Seq::<Tally>::empty(),
            pop.roster() == Seq::<Seed>::empty(),
            pop@ == Multiset::<Seed>::empty(),
    {
        let pop = Population { slots: KeySlots::new(), tallies: Vec::new(), total: 0 };
        proof {
            pop.roster().to_multiset_ensures();
            assert(pop@.len() == 0);
            assert(pop@ =~= Multiset::<Seed>::empty());
        }
        pop
    }

    /// How many objects are owed in all.
    pub fn size(&self) -> (total: u32)
        requires
            self.wf(),
        ensures
            total == self.roster().len(),
            total == self@.len(),
    {
        proof {
            self.roster().to_multiset_ensures();
        }
        self.total
    }

    /// How many objects of `seed` are owed.
    pub fn count(&self, seed: Seed) -> (owed: u32)
        requires
            self.wf(),
        ensures
            owed == self@.count(seed),
    {
        proof {
            self.lemma_wf();
        }
        match self.slots.find(seed.key()) {
            Some(slot) => {
                proof {
                    lemma_key_injective(self.tallies@[slot as int].seed, seed);
                    lemma_roster_count_present(self.tallies@, slot as int);
                }
                self.tallies[slot].count
            },
            None => {
                proof {
                    assert forall|i: int| 0 <= i < self.tallies@.len() implies (
                    #[trigger] self.tallies@[i]).seed != seed by {
                        if self.tallies@[i].seed == seed {
                            assert(self.slots.keys()[i] == seed.spec_key());
                            assert(self.slots.keys().contains(seed.spec_key()));
                        }
                    }
                    lemma_roster_count_absent(self.tallies@, seed);
                }
                0
            },
        }
    }

    /// The tallies, in the order in which their seeds first came.
    pub fn tallies(&self) -> (tallies: &Vec<Tally>)
        ensures
            tallies@ == self.spec_tallies(),
    {
        &self.tallies
    }

    /// Owes one more object of `seed`.
    pub fn insert(&mut self, seed: Seed)
        requires
            old(self).wf(),
            old(self).roster().len() < u32::MAX,
        ensures
            final(self).wf(),
            final(self).spec_tallies() == spec_tallied(old(self).spec_tallies(), seed),
            final(self)@ == old(self)@.insert(seed),
            final(self).roster().len() == old(self).roster().len() + 1,
    {
        proof {
            self.lemma_wf();
            self.roster().to_multiset_ensures();
        }
        self.total = self.total + 1;
        match self.slots.find(seed.key()) {
            Some(slot) => {
                proof {
                    lemma_key_injective(self.tallies@[slot as int].seed, seed);
                    lemma_roster_covers(self.tallies@, slot as int);
                    lemma_roster_bump(self.tallies@, slot as int);
                    lemma_tallied_found(self.tallies@, slot as int);
                }
                let tally = self.tallies[slot];
                self.tallies.set(slot, Tally { seed: tally.seed, count: tally.count + 1 });
            },
            None => {
                proof {
                    assert forall|i: int| 0 <= i < self.tallies@.len() implies (
                    #[trigger] self.tallies@[i]).seed != seed by {
                        if self.tallies@[i].seed == seed {
                            assert(self.slots.keys()[i] == seed.spec_key());
                            assert(self.slots.keys().contains(seed.spec_key()));
                        }
                    }
                    lemma_roster_push(self.tallies@, Tally { seed, count: 1 });
                    assert(run(seed, 1) =~= seq![seed]);
                    assert(roster_of(self.tallies@) + seq![seed] =~= roster_of(self.tallies@).push(
                        seed,
                    ));
                }
                self.slots.push(seed.key());
                self.tallies.push(Tally { seed, count: 1 });
            },
        }
        proof {
            self.roster().to_multiset_ensures();
        }
    }

    /// One request per object owed, in roster order, the `k`-th at the
    /// `k`-th of `coords`, which start over when they run out. Without
    /// coordinates nothing is requested.
    pub fn spawn_at(&self, coords: &Vec<Position>) -> (plan: Vec<SpawnRequest>)
        requires
            self.wf(),
        ensures
            plan@ == spec_spawn_plan(self.roster(), coords@),
    {
        let mut plan: Vec<SpawnRequest> = Vec::new();
        if coords.len() == 0 {
            proof {
                assert(plan@ =~= spec_spawn_plan(self.roster(), coords@));
            }
            return plan;
        }
        let mut i: usize = 0;
        proof {
            assert(self.tallies@.take(0) =~= Seq::<Tally>::empty());
            assert(plan@ =~= spec_spawn_plan(roster_of(self.tallies@.take(0)), coords@));
        }
        while i < self.tallies.len()
            invariant
                0 <= i <= self.tallies@.len(),
                coords@.len() > 0,
                self.roster().len() <= u32::MAX,
                plan@ == spec_spawn_plan(roster_of(self.tallies@.take(i as int)), coords@),
            decreases self.tallies@.len() - i,
        {
            let tally = self.tallies[i];
            let mut j: u32 = 0;
            let ghost before: Seq<Seed> = roster_of(self.tallies@.take(i as int));
            proof {
                assert(before + run(tally.seed, 0) =~= before);
                lemma_roster_take(self.tallies@, i as int);
                lemma_roster_prefix_len(self.tallies@, i as int + 1);
            }
            while j < tally.count
                invariant
                    0 <= j <= tally.count,
                    coords@.len() > 0,
                    before.len() + tally.count <= u32::MAX,
                    plan@ == spec_spawn_plan(before + run(tally.seed, j as nat), coords@),
                decreases tally.count - j,
            {
                let k: usize = plan.len();
                let at: usize = k % coords.len();
                plan.push(SpawnRequest { seed: tally.seed, position: coords[at] });
                proof {
                    assert(before + run(tally.seed, (j + 1) as nat) =~= (before + run(
                        tally.seed,
                        j as nat,
                    )).push(tally.seed));
                    assert(plan@ =~= spec_spawn_plan(
                        before + run(tally.seed, (j + 1) as nat),
                        coords@,
                    ));
                }
                j = j + 1;
            }
            proof {
                lemma_roster_take(self.tallies@, i as int);
            }
            i = i + 1;
        }
        proof {
            assert(self.tallies@.take(i as int) =~= self.tallies@);
        }
        plan
    }
}

/// The requests that spawn `roster` over `coords`: the `k`-th object at the
/// `k`-th coordinate, counted round and round. Nothing where there are no
/// coordinates.
pub open spec fn spec_spawn_plan(roster: Seq<Seed>, coords: Seq<Position>) -> Seq<SpawnRequest> {
    if coords.len() == 0 {
        Seq::empty()
    } else {
        Seq::new(
            roster.len(),
            |k: int| SpawnRequest { seed: roster[k], position: coords[k % (coords.len() as int)] },
        )
    }
}

/// Where no seed has two tallies, counting one more object of the seed of
/// tally `i` makes that tally count one more.
pub proof fn lemma_tallied_found(tallies: Seq<Tally>, i: int)
    requires
        distinct_seeds(tallies),
        0 <= i < tallies.len(),
    ensures
        has_tally(tallies, tallies[i].seed),
        spec_tallied(tallies, tallies[i].seed) == tallies.update(
            i,
            Tally { seed: tallies[i].seed, count: (tallies[i].count + 1) as u32 },
        ),
{
    let seed = tallies[i].seed;
    let found = choose|k: int| 0 <= k < tallies.len() && (#[trigger] tallies[k]).seed == seed;
    assert(found == i);
}

/// Counting one more object puts exactly that object into the roster,
/// whatever the order.
pub proof fn lemma_tallied_bag(tallies: Seq<Tally>, seed: Seed)
    requires
        tallies_sound(tallies),
        roster_of(tallies).len() < u32::MAX,
    ensures
        roster_of(spec_tallied(tallies, seed)).to_multiset() == roster_of(
            tallies,
        ).to_multiset().insert(seed),
{
    if has_tally(tallies, seed) {
        let i = choose|i: int| 0 <= i < tallies.len() && (#[trigger] tallies[i]).seed == seed;
        lemma_tallied_found(tallies, i);
        lemma_roster_covers(tallies, i);
        lemma_roster_bump(tallies, i);
    } else {
        lemma_roster_push(tallies, Tally { seed, count: 1 });
        assert(run(seed, 1) =~= seq![seed]);
        assert(roster_of(tallies) + seq![seed] =~= roster_of(tallies).push(seed));
        roster_of(tallies).to_multiset_ensures();
    }
}

/// Counting a sequence of objects is counting its front and then its back.
pub proof fn lemma_tally_all_split(tallies: Seq<Tally>, front: Seq<Seed>, back: Seq<Seed>)
    ensures
        spec_tally_all(tallies, front + back) == spec_tally_all(
            spec_tally_all(tallies, front),
            back,
        ),
    decreases back.len(),
{
    if back.len() == 0 {
        assert(front + back =~= front);
    } else {
        assert((front + back).drop_last() =~= front + back.drop_last());
        lemma_tally_all_split(tallies, front, back.drop_last());
    }
}

/// Counting `n` objects of a seed that has no tally yet adds one tally of
/// `n` at the end.
pub proof fn lemma_tally_run(tallies: Seq<Tally>, seed: Seed, n: nat)
    requires
        distinct_seeds(tallies),
        !has_tally(tallies, seed),
        1 <= n <= u32::MAX,
    ensures
        spec_tally_all(tallies, run(seed, n)) == tallies.push(Tally { seed, count: n as u32 }),
    decreases n,
{
    assert(run(seed, n).drop_last() =~= run(seed, (n - 1) as nat));
    assert(run(seed, n).last() == seed);
    if n == 1 {
        assert(spec_tally_all(tallies, run(seed, 0)) == tallies);
    } else {
        lemma_tally_run(tallies, seed, (n - 1) as nat);
        let before = tallies.push(Tally { seed, count: (n - 1) as u32 });
        assert forall|i: int, j: int|
            0 <= i < before.len() && 0 <= j < before.len() && i != j implies (
        #[trigger] before[i]).seed != (#[trigger] before[j]).seed by {
            if i < tallies.len() {
                assert(before[i] == tallies[i]);
            }
            if j < tallies.len() {
                assert(before[j] == tallies[j]);
            }
        }
        lemma_tallied_found(before, tallies.len() as int);
        assert(before.update(tallies.len() as int, Tally { seed, count: n as u32 })
            =~= tallies.push(Tally { seed, count: n as u32 }));
    }
}

/// Counting the roster of sound tallies, starting from nothing, gives the
/// tallies back.
pub proof fn lemma_tally_roster(tallies: Seq<Tally>)
    requires
        tallies_sound(tallies),
    ensures
        spec_tally_all(Seq::empty(), roster_of(tallies)) == tallies,
    decreases tallies.len(),
{
    if tallies.len() > 0 {
        let front = tallies.drop_last();
        let last = tallies.last();
        assert forall|i: int, j: int|
            0 <= i < front.len() && 0 <= j < front.len() && i != j implies (
        #[trigger] front[i]).seed != (#[trigger] front[j]).seed by {
            assert(front[i] == tallies[i] && front[j] == tallies[j]);
        }
        assert forall|i: int| 0 <= i < front.len() implies (#[trigger] front[i]).count >= 1 by {
            assert(front[i] == tallies[i]);
        }
        lemma_tally_roster(front);
        lemma_tally_all_split(
            Seq::empty(),
            roster_of(front),
            run(last.seed, last.count as nat),
        );
        assert(!has_tally(front, last.seed)) by {
            if has_tally(front, last.seed) {
                let i = choose|i: int|
                    0 <= i < front.len() && (#[trigger] front[i]).seed == last.seed;
                assert(front[i] == tallies[i]);
                assert(tallies[tallies.len() - 1] == last);
            }
        }
        lemma_roster_covers(tallies, tallies.len() - 1);
        lemma_tally_run(front, last.seed, last.count as nat);
        assert(front.push(last) =~= tallies);
    }
}

/// Counting one more object keeps the tallies sound, while the counters
/// have room.
pub proof fn lemma_tallied_sound(tallies: Seq<Tally>, seed: Seed)
    requires
        tallies_sound(tallies),
        roster_of(tallies).len() < u32::MAX,
    ensures
        tallies_sound(spec_tallied(tallies, seed)),
        roster_of(spec_tallied(tallies, seed)).len() == roster_of(tallies).len() + 1,
{
    let after = spec_tallied(tallies, seed);
    lemma_tallied_bag(tallies, seed);
    roster_of(tallies).to_multiset_ensures();
    roster_of(after).to_multiset_ensures();
    if has_tally(tallies, seed) {
        let i = choose|i: int| 0 <= i < tallies.len() && (#[trigger] tallies[i]).seed == seed;
        lemma_tallied_found(tallies, i);
        lemma_roster_covers(tallies, i);
        assert forall|a: int, b: int|
            0 <= a < after.len() && 0 <= b < after.len() && a != b implies (
        #[trigger] after[a]).seed != (#[trigger] after[b]).seed by {
            assert(after[a].seed == tallies[a].seed && after[b].seed == tallies[b].seed);
        }
        assert forall|a: int| 0 <= a < after.len() implies (#[trigger] after[a]).count >= 1 by {
            if a != i {
                assert(after[a] == tallies[a]);
            }
        }
    } else {
        assert forall|a: int, b: int|
            0 <= a < after.len() && 0 <= b < after.len() && a != b implies (
        #[trigger] after[a]).seed != (#[trigger] after[b]).seed by {
            if a < tallies.len() {
                assert(after[a] == tallies[a]);
            }
            if b < tallies.len() {
                assert(after[b] == tallies[b]);
            }
        }
        assert forall|a: int| 0 <= a < after.len() implies (#[trigger] after[a]).count >= 1 by {
            if a < tallies.len() {
                assert(after[a] == tallies[a]);
            }
        }
    }
}

/// Counting objects puts exactly those objects into the roster, whatever
/// their order, while the counters have room.
pub proof fn lemma_tally_all_bag(tallies: Seq<Tally>, seeds: Seq<Seed>)
    requires
        tallies_sound(tallies),
        roster_of(tallies).len() + seeds.len() <= u32::MAX,
    ensures
        tallies_sound(spec_tally_all(tallies, seeds)),
        roster_of(spec_tally_all(tallies, seeds)).len() == roster_of(tallies).len() + seeds.len(),
        roster_of(spec_tally_all(tallies, seeds)).to_multiset() == roster_of(
            tallies,
        ).to_multiset().add(seeds.to_multiset()),
    decreases seeds.len(),
{
    if seeds.len() == 0 {
        seeds.to_multiset_ensures();
        assert(seeds.to_multiset() =~= Multiset::<Seed>::empty());
        assert(roster_of(tallies).to_multiset().add(Multiset::<Seed>::empty()) =~= roster_of(
            tallies,
        ).to_multiset());
    } else {
        let front = seeds.drop_last();
        let counted = spec_tally_all(tallies, front);
        lemma_tally_all_bag(tallies, front);
        lemma_tallied_sound(counted, seeds.last());
        lemma_tallied_bag(counted, seeds.last());
        front.to_multiset_ensures();
        assert(front.push(seeds.last()) =~= seeds);
        assert(roster_of(tallies).to_multiset().add(front.to_multiset()).insert(seeds.last())
            =~= roster_of(tallies).to_multiset().add(front.to_multiset().insert(seeds.last())));
    }
}

/// A tally added at the end adds its run at the end of the roster.
pub proof fn lemma_roster_push(tallies: Seq<Tally>, tally: Tally)
    ensures
        roster_of(tallies.push(tally)) == roster_of(tallies) + run(tally.seed, tally.count as nat),
{
    assert(tallies.push(tally).drop_last() =~= tallies);
}

/// The roster of the first `i + 1` tallies is that of the first `i` with the
/// run of tally `i` behind it.
pub proof fn lemma_roster_take(tallies: Seq<Tally>, i: int)
    requires
        0 <= i < tallies.len(),
    ensures
        roster_of(tallies.take(i + 1)) == roster_of(tallies.take(i)) + run(
            tallies[i].seed,
            tallies[i].count as nat,
        ),
{
    assert(tallies.take(i + 1) =~= tallies.take(i).push(tallies[i]));
    lemma_roster_push(tallies.take(i), tallies[i]);
}

/// The roster of a prefix of the tallies is no longer than the whole roster.
pub proof fn lemma_roster_prefix_len(tallies: Seq<Tally>, n: int)
    requires
        0 <= n <= tallies.len(),
    ensures
        roster_of(tallies.take(n)).len() <= roster_of(tallies).len(),
    decreases tallies.len() - n,
{
    if n == tallies.len() {
        assert(tallies.take(n) =~= tallies);
    } else {
        lemma_roster_take(tallies, n);
        lemma_roster_prefix_len(tallies, n + 1);
    }
}

/// The roster is at least as long as any one tally counts.
pub proof fn lemma_roster_covers(tallies: Seq<Tally>, i: int)
    requires
        0 <= i < tallies.len(),
    ensures
        tallies[i].count <= roster_of(tallies).len(),
{
    lemma_roster_take(tallies, i);
    lemma_roster_prefix_len(tallies, i + 1);
}

/// How often a seed occurs in a run.
pub proof fn lemma_run_count(seed: Seed, n: nat, other: Seed)
    ensures
        run(seed, n).to_multiset().count(other) == (if other == seed {
            n
        } else {
            0
        }),
    decreases n,
{
    if n == 0 {
        run(seed, 0).to_multiset_ensures();
        assert(run(seed, 0).to_multiset().len() == 0);
    } else {
        lemma_run_count(seed, (n - 1) as nat, other);
        assert(run(seed, n) =~= run(seed, (n - 1) as nat).push(seed));
        run(seed, (n - 1) as nat).to_multiset_ensures();
    }
}

/// One more of the seed of tally `i` puts one more of it in the roster.
pub proof fn lemma_roster_bump(tallies: Seq<Tally>, i: int)
    requires
        0 <= i < tallies.len(),
        tallies[i].count < u32::MAX,
    ensures
        roster_of(
            tallies.update(
                i,
                Tally { seed: tallies[i].seed, count: (tallies[i].count + 1) as u32 },
            ),
        ).to_multiset() == roster_of(tallies).to_multiset().insert(tallies[i].seed),
    decreases tallies.len(),
{
    let more = Tally { seed: tallies[i].seed, count: (tallies[i].count + 1) as u32 };
    let bumped = tallies.update(i, more);
    let head = roster_of(tallies.drop_last());
    if i == tallies.len() - 1 {
        assert(bumped.drop_last() =~= tallies.drop_last());
        assert(run(more.seed, more.count as nat) =~= run(
            tallies[i].seed,
            tallies[i].count as nat,
        ).push(more.seed));
        assert(head + run(more.seed, more.count as nat) =~= (head + run(
            tallies[i].seed,
            tallies[i].count as nat,
        )).push(more.seed));
        roster_of(tallies).to_multiset_ensures();
    } else {
        let tail = run(tallies.last().seed, tallies.last().count as nat);
        assert(bumped.drop_last() =~= tallies.drop_last().update(i, more));
        lemma_roster_bump(tallies.drop_last(), i);
        lemma_multiset_commutative(roster_of(bumped.drop_last()), tail);
        lemma_multiset_commutative(head, tail);
        assert(roster_of(bumped).to_multiset() =~= roster_of(tallies).to_multiset().insert(
            tallies[i].seed,
        ));
    }
}

/// A seed without a tally does not occur in the roster.
pub proof fn lemma_roster_count_absent(tallies: Seq<Tally>, seed: Seed)
    requires
        forall|i: int| 0 <= i < tallies.len() ==> (#[trigger] tallies[i]).seed != seed,
    ensures
        roster_of(tallies).to_multiset().count(seed) == 0,
    decreases tallies.len(),
{
    if tallies.len() == 0 {
        roster_of(tallies).to_multiset_ensures();
        assert(roster_of(tallies).to_multiset().len() == 0);
    } else {
        let head = roster_of(tallies.drop_last());
        let tail = run(tallies.last().seed, tallies.last().count as nat);
        assert forall|i: int| 0 <= i < tallies.drop_last().len() implies (
        #[trigger] tallies.drop_last()[i]).seed != seed by {
            assert(tallies.drop_last()[i] == tallies[i]);
        }
        lemma_roster_count_absent(tallies.drop_last(), seed);
        lemma_run_count(tallies.last().seed, tallies.last().count as nat, seed);
        lemma_multiset_commutative(head, tail);
    }
}

/// Where no seed has two tallies, a seed occurs in the roster as often as
/// its tally counts.
pub proof fn lemma_roster_count_present(tallies: Seq<Tally>, i: int)
    requires
        distinct_seeds(tallies),
        0 <= i < tallies.len(),
    ensures
        roster_of(tallies).to_multiset().count(tallies[i].seed) == tallies[i].count,
    decreases tallies.len(),
{
    let seed = tallies[i].seed;
    let head = roster_of(tallies.drop_last());
    let tail = run(tallies.last().seed, tallies.last().count as nat);
    lemma_multiset_commutative(head, tail);
    lemma_run_count(tallies.last().seed, tallies.last().count as nat, seed);
    if i == tallies.len() - 1 {
        assert forall|k: int| 0 <= k < tallies.drop_last().len() implies (
        #[trigger] tallies.drop_last()[k]).seed != seed by {
            assert(tallies.drop_last()[k] == tallies[k]);
        }
        lemma_roster_count_absent(tallies.drop_last(), seed);
    } else {
        assert forall|a: int, b: int|
            0 <= a < tallies.drop_last().len() && 0 <= b < tallies.drop_last().len() && a
                != b implies (#[trigger] tallies.drop_last()[a]).seed != (
        #[trigger] tallies.drop_last()[b]).seed by {
            assert(tallies.drop_last()[a] == tallies[a]);
            assert(tallies.drop_last()[b] == tallies[b]);
        }
        assert(tallies.drop_last()[i] == tallies[i]);
        lemma_roster_count_present(tallies.drop_last(), i);
    }
}

} // verus!
