//! What a zone holds before anyone has seen it, and where its objects go.
//! Both are read off the zone's own random lanes, so the same zone gives
//! the same answer every time.

use vstd::prelude::*;
use vstd::multiset::Multiset;
use crate::archetype::spec_bulk_of_size;
use crate::archetype::spec_rock_of_roll;
use crate::archetype::Astroid;
use crate::archetype::Rock;
use crate::archetype::Seed;
use crate::archetype::ROLL_RANGE;
use crate::grid::spec_exceeds;
use crate::grid::Position;
use crate::grid::Zone;
use crate::grid::ZoneGrid;
use crate::grid::GRID_POINTS;
use crate::population::spec_tally_all;
use crate::population::Population;
use crate::population::Tally;
use crate::stream::draws_at;
use crate::stream::shuffle_for;
use crate::stream::stream_draws;
use crate::stream::stream_shuffle;

verus! {

/// A fresh zone holds at least this many objects.
pub const MIN_COUNT: u32 = 10;

/// A fresh zone holds fewer objects than this.
pub const MAX_COUNT: u32 = 100;

/// Trials that decide the size class of one object.
pub const TRIALS: usize = 15;

/// A trial is a hit when its draw from `0..HIT_RANGE` is below `HIT_BELOW`:
/// once in ten.
pub const HIT_RANGE: u32 = 10;

pub const HIT_BELOW: u32 = 1;

/// The lane from which the number of objects is drawn.
pub const COUNT_LANE: u64 = 0;

/// The lane from which the rolls for the materials are drawn.
pub const KIND_LANE: u64 = 1;

/// The lane from which the trials for the size classes are drawn.
pub const TRIAL_LANE: u64 = 2;

/// The lane that shuffles the spawn points.
pub const SHUFFLE_LANE: u64 = 3;

/// Hits among the `n` trials that start at `start`: the draws below
/// `HIT_BELOW`.
pub open spec fn spec_hits(trials: Seq<u32>, start: int, n: nat) -> int
    decreases n,
{
    if n == 0 {
        0
    } else {
        spec_hits(trials, start, (n - 1) as nat) + if trials[start + n - 1] < HIT_BELOW {
            1int
        } else {
            0int
        }
    }
}

/// The size class of object `i`: the hits among its `TRIALS` trials, which
/// are the `i`-th group of `TRIALS` draws.
pub open spec fn spec_size_class(trials: Seq<u32>, i: int) -> int {
    spec_hits(trials, i * TRIALS, TRIALS as nat)
}

/// Object `i` for the given draws: its material is the one that roll `i`
/// stands for, its bulk that of its size class.
pub open spec fn spec_object(rolls: Seq<u32>, trials: Seq<u32>, i: int) -> Seed {
    Seed::Rock(
        Astroid {
            bulk: spec_bulk_of_size(spec_size_class(trials, i)) as u8,
            kind: spec_rock_of_roll(rolls[i] as int),
        },
    )
}

/// The first `n` objects for the given draws.
pub open spec fn spec_objects(rolls: Seq<u32>, trials: Seq<u32>, n: nat) -> Seq<Seed> {
    Seq::new(n, |i: int| spec_object(rolls, trials, i))
}

/// How many objects a fresh zone holds: the one draw of its count lane.
pub open spec fn spec_object_count(zone: Zone) -> int {
    stream_draws(
        zone.row as int,
        zone.col as int,
        COUNT_LANE as int,
        1,
        MIN_COUNT as int,
        MAX_COUNT as int,
    )[0] as int
}

/// The rolls for the materials of a fresh zone: one draw for each object.
pub open spec fn spec_rolls(zone: Zone) -> Seq<u32> {
    stream_draws(
        zone.row as int,
        zone.col as int,
        KIND_LANE as int,
        spec_object_count(zone),
        0,
        ROLL_RANGE as int,
    )
}

/// The trials for the size classes of a fresh zone: `TRIALS` draws for each
/// object.
pub open spec fn spec_trials(zone: Zone) -> Seq<u32> {
    stream_draws(
        zone.row as int,
        zone.col as int,
        TRIAL_LANE as int,
        spec_object_count(zone) * TRIALS,
        0,
        HIT_RANGE as int,
    )
}

/// What a fresh zone holds, object by object: a function of the zone alone.
pub open spec fn spec_generated(zone: Zone) -> Seq<Seed> {
    spec_objects(spec_rolls(zone), spec_trials(zone), spec_object_count(zone) as nat)
}

/// What a fresh zone holds, counted per seed in the order in which the
/// seeds first come up.
pub open spec fn spec_generated_tallies(zone: Zone) -> Seq<Tally> {
    spec_tally_all(Seq::empty(), spec_generated(zone))
}

/// The candidate spawn points of a zone, in lattice order.
pub open spec fn spec_lattice(grid: ZoneGrid, zone: Zone) -> Seq<Position> {
    Seq::new((GRID_POINTS * GRID_POINTS) as nat, |k: int| grid.lattice_point(zone, k))
}

/// The candidate spawn points of a zone in the order that the zone's stream
/// gives them.
pub open spec fn spec_rand_coordinates(grid: ZoneGrid, zone: Zone) -> Seq<Position> {
    stream_shuffle(zone.row as int, zone.col as int, SHUFFLE_LANE as int, spec_lattice(grid, zone))
}

/// Whether `p` is farther than `radius` from `from`.
pub open spec fn spec_clear_of(p: Position, from: Position, radius: int) -> bool {
    spec_exceeds(p.x - from.x, p.y - from.y, radius)
}

/// The size class of object `i`: how many of its `TRIALS` trials are hits.
pub fn size_class(trials: &Vec<u32>, i: usize) -> (hits: u8)
    requires
        (i + 1) * TRIALS <= trials@.len(),
    ensures
        hits == spec_size_class(trials@, i as int),
        hits <= TRIALS,
{
    proof {
        assert((i + 1) * TRIALS == i * TRIALS + TRIALS && i * TRIALS >= 0) by (nonlinear_arith)
            requires
                i >= 0,
                TRIALS == 15,
        ;
    }
    let len: usize = trials.len();
    let start: usize = i * TRIALS;
    let mut hits: u8 = 0;
    let mut j: usize = 0;
    while j < TRIALS
        invariant
            0 <= j <= TRIALS,
            start == i * TRIALS,
            start + TRIALS <= trials@.len() == len,
            hits == spec_hits(trials@, start as int, j as nat),
            hits <= j,
        decreases TRIALS - j,
    {
        if trials[start + j] < HIT_BELOW {
            hits = hits + 1;
        }
        j = j + 1;
    }
    hits
}

/// Object `i` for the given draws.
pub fn object_at(rolls: &Vec<u32>, trials: &Vec<u32>, i: usize) -> (seed: Seed)
    requires
        i < rolls@.len(),
        (i + 1) * TRIALS <= trials@.len(),
    ensures
        seed == spec_object(rolls@, trials@, i as int),
{
    Seed::Rock(Astroid::of_size(size_class(trials, i), Rock::from_roll(rolls[i])))
}

impl Population {
    /// The population that the given draws stand for: one object for each
    /// roll, with the size class that its group of trials gives, counted per
    /// seed in the order of the rolls.
    pub fn from_draws(rolls: &Vec<u32>, trials: &Vec<u32>) -> (pop: Population)
        requires
            rolls@.len() <= u32::MAX,
            trials@.len() == rolls@.len() * TRIALS,
        ensures
            pop.wf(),
            pop.spec_tallies() == spec_tally_all(
                Seq::empty(),
                spec_objects(rolls@, trials@, rolls@.len()),
            ),
            pop@ == spec_objects(rolls@, trials@, rolls@.len()).to_multiset(),
            pop.roster().len() == rolls@.len(),
    {
        let mut pop = Population::new();
        let mut i: usize = 0;
        proof {
            assert(spec_objects(rolls@, trials@, 0) =~= Seq::<Seed>::empty());
            spec_objects(rolls@, trials@, 0).to_multiset_ensures();
            assert(spec_objects(rolls@, trials@, 0).to_multiset() =~= Multiset::<Seed>::empty());
        }
        while i < rolls.len()
            invariant
                0 <= i <= rolls@.len() <= u32::MAX,
                trials@.len() == rolls@.len() * TRIALS,
                pop.wf(),
                pop.roster().len() == i,
                pop.spec_tallies() == spec_tally_all(
                    Seq::empty(),
                    spec_objects(rolls@, trials@, i as nat),
                ),
                pop@ == spec_objects(rolls@, trials@, i as nat).to_multiset(),
            decreases rolls@.len() - i,
        {
            let seed = object_at(rolls, trials, i);
            proof {
                spec_objects(rolls@, trials@, i as nat).to_multiset_ensures();
                assert(spec_objects(rolls@, trials@, (i + 1) as nat) =~= spec_objects(
                    rolls@,
                    trials@,
                    i as nat,
                ).push(seed));
                assert(spec_objects(rolls@, trials@, (i + 1) as nat).drop_last() =~= spec_objects(
                    rolls@,
                    trials@,
                    i as nat,
                ));
            }
            pop.insert(seed);
            i = i + 1;
        }
        pop
    }

    /// What the zone holds before it was ever visited: between `MIN_COUNT`
    /// and `MAX_COUNT` objects, each with a material and a size class drawn
    /// from the zone's lanes, counted per seed.
    pub fn generate(zone: Zone) -> (pop: Population)
        ensures
            pop.wf(),
            pop.spec_tallies() == spec_generated_tallies(zone),
            pop@ == spec_generated(zone).to_multiset(),
            MIN_COUNT <= pop@.len() < MAX_COUNT,
            pop@.len() == spec_object_count(zone),
            pop.roster().len() == spec_object_count(zone),
    {
        let count: Vec<u32> = draws_at(zone, COUNT_LANE, 1, MIN_COUNT, MAX_COUNT);
        let n: usize = count[0] as usize;
        let rolls: Vec<u32> = draws_at(zone, KIND_LANE, n, 0, ROLL_RANGE);
        let trials: Vec<u32> = draws_at(zone, TRIAL_LANE, n * TRIALS, 0, HIT_RANGE);
        let pop = Population::from_draws(&rolls, &trials);
        proof {
            spec_generated(zone).to_multiset_ensures();
        }
        pop
    }
}

impl Zone {
    /// The candidate spawn points of the zone, shuffled by the zone's own
    /// stream: the same order every time.
    pub fn rand_coordinates(&self, grid: &ZoneGrid) -> (coords: Vec<Position>)
        requires
            grid.in_world(*self),
        ensures
            coords@ == spec_rand_coordinates(*grid, *self),
            coords@.to_multiset() == spec_lattice(*grid, *self).to_multiset(),
            coords@.len() == GRID_POINTS * GRID_POINTS,
            forall|k: int| 0 <= k < coords@.len() ==> grid.contains(*self, #[trigger] coords@[k]),
    {
        let mut coords: Vec<Position> = self.grid_coordinates(grid);
        let ghost lattice: Seq<Position> = coords@;
        proof {
            assert(lattice =~= spec_lattice(*grid, *self));
        }
        shuffle_for(*self, SHUFFLE_LANE, &mut coords);
        proof {
            lattice.to_multiset_ensures();
            coords@.to_multiset_ensures();
            assert forall|k: int| 0 <= k < coords@.len() implies grid.contains(
                *self,
                #[trigger] coords@[k],
            ) by {
                assert(coords@.contains(coords@[k]));
                assert(coords@.to_multiset().count(coords@[k]) > 0);
                assert(lattice.to_multiset().count(coords@[k]) > 0);
                assert(lattice.contains(coords@[k]));
                let at = choose|at: int| 0 <= at < lattice.len() && lattice[at] == coords@[k];
                assert(grid.contains(*self, lattice[at]));
            }
        }
        coords
    }
}

/// Those of `coords`, in their order, that are farther than `radius` from
/// `from`.
pub fn clear_of(coords: &Vec<Position>, from: Position, radius: i64) -> (kept: Vec<Position>)
    ensures
        kept@ == coords@.filter(|p: Position| spec_clear_of(p, from, radius as int)),
{
    let mut kept: Vec<Position> = Vec::new();
    let ghost keep = |p: Position| spec_clear_of(p, from, radius as int);
    let mut i: usize = 0;
    proof {
        assert(coords@.take(0) =~= Seq::<Position>::empty());
        assert(coords@.take(0).filter(keep) =~= Seq::<Position>::empty());
    }
    while i < coords.len()
        invariant
            0 <= i <= coords@.len(),
            keep == |p: Position| spec_clear_of(p, from, radius as int),
            kept@ == coords@.take(i as int).filter(keep),
        decreases coords@.len() - i,
    {
        let p: Position = coords[i];
        let dx: i128 = p.x as i128 - from.x as i128;
        let dy: i128 = p.y as i128 - from.y as i128;
        proof {
            assert(coords@.take(i as int + 1) =~= coords@.take(i as int).push(p));
            lemma_filter_push(coords@.take(i as int), p, keep);
        }
        if crate::grid::exceeds(dx, dy, radius) {
            kept.push(p);
        }
        i = i + 1;
    }
    proof {
        assert(coords@.take(i as int) =~= coords@);
    }
    kept
}

/// The parameters of generation are sound: the range of counts is not
/// empty, the chance of a hit is a probability, the shares of ice and metal
/// do not exceed the whole.
pub proof fn lemma_parameters_sound()
    ensures
        MIN_COUNT < MAX_COUNT,
        0 < HIT_RANGE,
        HIT_BELOW <= HIT_RANGE,
        0 < ROLL_RANGE,
        crate::archetype::ICE_PROB + crate::archetype::METAL_PROB <= ROLL_RANGE,
{
}

/// Filtering a sequence with one more item keeps the item or not, and
/// leaves the rest as it was.
pub proof fn lemma_filter_push<A>(s: Seq<A>, a: A, keep: spec_fn(A) -> bool)
    ensures
        s.push(a).filter(keep) == (if keep(a) {
            s.filter(keep).push(a)
        } else {
            s.filter(keep)
        }),
{
    reveal(Seq::filter);
    assert(s.push(a).drop_last() =~= s);
}

} // verus!
