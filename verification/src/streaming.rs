//! What happens once per tick: zones far from the player are despawned as a
//! whole, single objects that strayed far are evicted, and the zones around
//! the player are brought to life. The world itself is not touched here:
//! each step takes the live objects as plain values and answers with what is
//! to be removed and what is to be created.

use vstd::prelude::*;
use crate::archetype::Seed;
use crate::config::StreamConfig;
use crate::generator::clear_of;
use crate::generator::lemma_filter_push;
use crate::generator::spec_clear_of;
use crate::generator::spec_generated_tallies;
use crate::generator::spec_rand_coordinates;
use crate::grid::lemma_neighbors_distinct;
use crate::grid::lemma_partition;
use crate::grid::lemma_roomy;
use crate::grid::Position;
use crate::grid::Zone;
use crate::grid::ZoneGrid;
use crate::population::lemma_tally_roster;
use crate::population::Population;
use crate::population::roster_of;
use crate::population::SpawnRequest;
use crate::population::spec_spawn_plan;
use crate::population::spec_tallied;
use crate::population::spec_tally_all;
use crate::population::tallies_sound;
use crate::population::Tally;
use crate::registry::spec_evicted;
use crate::registry::spec_owed;
use crate::registry::spec_zone_plan;
use crate::registry::Zones;
use crate::registry::ZoneView;

verus! {

/// An object of the world as the streaming steps see it.
#[derive(Clone, Copy, Debug, PartialEq, Eq, Structural)]
pub struct LiveObject {
    /// The handle by which the world knows the object.
    pub id: u64,
    pub position: Position,
    pub seed: Seed,
}

/// What is to be created to bring one zone to life.
pub struct ZoneBatch {
    pub zone: Zone,
    pub requests: Vec<SpawnRequest>,
}

/// What a tick asks of the world: the objects to remove, by handle, and the
/// zones to populate.
pub struct TickPlan {
    pub removals: Vec<u64>,
    pub batches: Vec<ZoneBatch>,
}

/// No object is farther from the origin than this when the first zone is
/// populated.
pub const START_CLEARANCE: i64 = 30;

/// Those of `objects`, in their order, whose mark is set.
pub open spec fn picked(objects: Seq<LiveObject>, marks: Seq<bool>) -> Seq<LiveObject>
    recommends
        marks.len() == objects.len(),
    decreases objects.len(),
{
    if objects.len() == 0 {
        Seq::empty()
    } else {
        let rest = picked(objects.drop_last(), marks.drop_last());
        if marks.last() {
            rest.push(objects.last())
        } else {
            rest
        }
    }
}

/// The handles of `objects`, in their order.
pub open spec fn ids_of(objects: Seq<LiveObject>) -> Seq<u64> {
    Seq::new(objects.len(), |k: int| objects[k].id)
}

/// The seeds of those of `evicted` that lie in `zone`, in their order.
pub open spec fn seeds_in(grid: ZoneGrid, zone: Zone, evicted: Seq<LiveObject>) -> Seq<Seed>
    decreases evicted.len(),
{
    if evicted.len() == 0 {
        Seq::empty()
    } else {
        let rest = seeds_in(grid, zone, evicted.drop_last());
        if grid.spec_zone_of(evicted.last().position) == zone {
            rest.push(evicted.last().seed)
        } else {
            rest
        }
    }
}

/// The registry after every object of `evicted` left the world where it
/// stood. A zone in which none of them lay is as before. Any other zone is
/// despawned, and its tallies are those of what it was owed before with the
/// objects that lay in it counted in, one after the other.
pub open spec fn spec_after_evictions(
    states: Map<Zone, ZoneView>,
    grid: ZoneGrid,
    evicted: Seq<LiveObject>,
) -> Map<Zone, ZoneView> {
    Map::new(
        |zone: Zone| states.contains_key(zone) || seeds_in(grid, zone, evicted).len() > 0,
        |zone: Zone|
            if seeds_in(grid, zone, evicted).len() == 0 {
                states[zone]
            } else {
                ZoneView::Dematerialized(
                    spec_tally_all(spec_owed(states, zone), seeds_in(grid, zone, evicted)),
                )
            },
    )
}

/// The marks of a sweep: an object is taken if it is not gone yet and the
/// sweep wants it.
pub open spec fn spec_marks(gone: Seq<bool>, wanted: Seq<bool>) -> Seq<bool> {
    Seq::new(gone.len(), |i: int| !gone[i] && wanted[i])
}

/// The objects gone after a sweep: those gone before, and those taken.
pub open spec fn spec_gone(gone: Seq<bool>, wanted: Seq<bool>) -> Seq<bool> {
    Seq::new(gone.len(), |i: int| gone[i] || wanted[i])
}

/// For each object, whether it is farther than `dist` from `player`.
pub open spec fn spec_strayed(objects: Seq<LiveObject>, player: Position, dist: int) -> Seq<bool> {
    Seq::new(objects.len(), |i: int| spec_clear_of(objects[i].position, player, dist))
}

/// For each object, whether it lies in `zone`.
pub open spec fn spec_within(grid: ZoneGrid, zone: Zone, objects: Seq<LiveObject>) -> Seq<bool> {
    Seq::new(objects.len(), |i: int| grid.contains(zone, objects[i].position))
}

/// How many objects are not gone yet.
pub open spec fn spec_left(gone: Seq<bool>) -> nat
    decreases gone.len(),
{
    if gone.len() == 0 {
        0
    } else {
        spec_left(gone.drop_last()) + if gone.last() {
            0nat
        } else {
            1nat
        }
    }
}

/// The seeds of `objects`, in their order.
pub open spec fn seeds_of(objects: Seq<LiveObject>) -> Seq<Seed> {
    Seq::new(objects.len(), |k: int| objects[k].seed)
}

/// Whether every one of `objects` stands in `zone`.
pub open spec fn all_in_zone(grid: ZoneGrid, zone: Zone, objects: Seq<LiveObject>) -> bool {
    forall|k: int|
        0 <= k < objects.len() ==> grid.spec_zone_of((#[trigger] objects[k]).position) == zone
}

/// The registry after `zone` was despawned as a whole and `taken`, the
/// objects that lay in it, were evicted. Where there were such objects, the
/// zone is owed what it was owed before with those objects counted in.
/// Where there were none, the zone is owed nothing, whatever it was before.
pub open spec fn spec_zone_despawned(
    states: Map<Zone, ZoneView>,
    zone: Zone,
    taken: Seq<LiveObject>,
) -> Map<Zone, ZoneView> {
    states.insert(
        zone,
        ZoneView::Dematerialized(
            if taken.len() == 0 {
                Seq::empty()
            } else {
                spec_tally_all(spec_owed(states, zone), seeds_of(taken))
            },
        ),
    )
}

/// Whether `zone` is live and its centre farther than `dist` from `player`.
pub open spec fn spec_doomed(
    states: Map<Zone, ZoneView>,
    grid: ZoneGrid,
    player: Position,
    dist: int,
    zone: Zone,
) -> bool {
    states.contains_key(zone) && states[zone] is Materialized && grid.spec_farther_than(
        zone,
        player,
        dist,
    )
}

/// The zones that are despawned as a whole for a player at `player`.
pub open spec fn spec_doomed_zones(zones: Zones, config: StreamConfig, player: Position) -> Seq<
    Zone,
> {
    zones.spec_order().filter(
        |zone: Zone|
            spec_doomed(
                zones@,
                config.spec_grid(),
                player,
                config.spec_despawn_distance(),
                zone,
            ),
    )
}

/// No thrashing: no zone of the neighbourhood that is brought to life for
/// a player's position is among the zones despawned for the same position.
pub proof fn lemma_no_thrashing(zones: Zones, config: StreamConfig, player: Position, i: int)
    requires
        config.valid(),
        0 <= i < 9,
    ensures
        !spec_doomed_zones(zones, config, player).contains(
            config.spec_grid().spec_zone_of(player).spec_neighbors()[i],
        ),
{
    let zone = config.spec_grid().spec_zone_of(player).spec_neighbors()[i];
    let doomed = spec_doomed_zones(zones, config, player);
    if doomed.contains(zone) {
        let k = choose|k: int| 0 <= k < doomed.len() && doomed[k] == zone;
        zones.spec_order().lemma_filter_pred(
            |zone: Zone|
                spec_doomed(
                    zones@,
                    config.spec_grid(),
                    player,
                    config.spec_despawn_distance(),
                    zone,
                ),
            k,
        );
        crate::config::lemma_hysteresis(config, player, i);
    }
}

/// Marking an object gone that was not leaves one fewer.
pub proof fn lemma_left_set(gone: Seq<bool>, i: int)
    requires
        0 <= i < gone.len(),
        !gone[i],
    ensures
        spec_left(gone.update(i, true)) + 1 == spec_left(gone),
    decreases gone.len(),
{
    if i == gone.len() - 1 {
        assert(gone.update(i, true).drop_last() =~= gone.drop_last());
    } else {
        assert(gone.update(i, true).drop_last() =~= gone.drop_last().update(i, true));
        lemma_left_set(gone.drop_last(), i);
    }
}

/// While nothing is gone, everything is left.
pub proof fn lemma_left_all(gone: Seq<bool>)
    requires
        forall|i: int| 0 <= i < gone.len() ==> !gone[i],
    ensures
        spec_left(gone) == gone.len(),
    decreases gone.len(),
{
    if gone.len() > 0 {
        lemma_left_all(gone.drop_last());
    }
}

/// Objects that all stand in one zone count for that zone and for no other.
pub proof fn lemma_seeds_in_one_zone(
    grid: ZoneGrid,
    zone: Zone,
    taken: Seq<LiveObject>,
    other: Zone,
)
    requires
        all_in_zone(grid, zone, taken),
    ensures
        seeds_in(grid, zone, taken) == seeds_of(taken),
        other != zone ==> seeds_in(grid, other, taken).len() == 0,
    decreases taken.len(),
{
    if taken.len() == 0 {
        assert(seeds_of(taken) =~= Seq::<Seed>::empty());
    } else {
        assert forall|k: int| 0 <= k < taken.drop_last().len() implies grid.spec_zone_of(
            (#[trigger] taken.drop_last()[k]).position,
        ) == zone by {
            assert(taken.drop_last()[k] == taken[k]);
        }
        lemma_seeds_in_one_zone(grid, zone, taken.drop_last(), other);
        assert(grid.spec_zone_of(taken.last().position) == zone);
        assert(seeds_of(taken) =~= seeds_of(taken.drop_last()).push(taken.last().seed));
    }
}

/// Evicting objects that all stand in one zone, and at least one, despawns
/// the zone as a whole.
pub proof fn lemma_zone_despawned(
    states: Map<Zone, ZoneView>,
    grid: ZoneGrid,
    zone: Zone,
    taken: Seq<LiveObject>,
)
    requires
        all_in_zone(grid, zone, taken),
        taken.len() > 0,
    ensures
        spec_after_evictions(states, grid, taken) == spec_zone_despawned(states, zone, taken),
{
    let evicted = spec_after_evictions(states, grid, taken);
    let whole = spec_zone_despawned(states, zone, taken);
    lemma_seeds_in_one_zone(grid, zone, taken, zone);
    assert forall|other: Zone| evicted.contains_key(other) <==> whole.contains_key(other) by {
        lemma_seeds_in_one_zone(grid, zone, taken, other);
    }
    assert forall|other: Zone| evicted.contains_key(other) implies #[trigger] evicted[other]
        == whole[other] by {
        lemma_seeds_in_one_zone(grid, zone, taken, other);
    }
    assert(evicted =~= whole);
}

/// The objects that a sweep of a zone takes all stand in the zone.
pub proof fn lemma_picked_within(
    grid: ZoneGrid,
    zone: Zone,
    objects: Seq<LiveObject>,
    gone: Seq<bool>,
)
    requires
        grid.valid(),
        gone.len() == objects.len(),
    ensures
        all_in_zone(
            grid,
            zone,
            picked(objects, spec_marks(gone, spec_within(grid, zone, objects))),
        ),
    decreases objects.len(),
{
    if objects.len() > 0 {
        let marks = spec_marks(gone, spec_within(grid, zone, objects));
        let front = objects.drop_last();
        assert(marks.drop_last() =~= spec_marks(
            gone.drop_last(),
            spec_within(grid, zone, front),
        ));
        lemma_picked_within(grid, zone, front, gone.drop_last());
        if marks.last() {
            lemma_partition(grid, objects.last().position, zone);
        }
    }
}

/// The objects that a plan creates, as they stand right after their
/// creation, numbered in the plan's order.
pub open spec fn spec_created(plan: Seq<SpawnRequest>) -> Seq<LiveObject> {
    Seq::new(
        plan.len(),
        |k: int| LiveObject { id: k as u64, position: plan[k].position, seed: plan[k].seed },
    )
}

/// Conservation: a zone that is brought to life with all it is owed, and
/// whose objects are then evicted one by one where they were created, is
/// owed exactly what it was owed before, tally for tally and so in total.
/// This needs at least one object: a zone that is owed nothing simply stays
/// live.
pub proof fn lemma_conservation(
    states: Map<Zone, ZoneView>,
    grid: ZoneGrid,
    zone: Zone,
    coords: Seq<Position>,
)
    requires
        grid.valid(),
        coords.len() > 0,
        forall|k: int| 0 <= k < coords.len() ==> grid.contains(zone, #[trigger] coords[k]),
        tallies_sound(spec_owed(states, zone)),
        spec_owed(states, zone).len() > 0,
    ensures
        spec_after_evictions(
            states.insert(zone, ZoneView::Materialized),
            grid,
            spec_created(spec_spawn_plan(roster_of(spec_owed(states, zone)), coords)),
        ) == states.insert(zone, ZoneView::Dematerialized(spec_owed(states, zone))),
{
    let owed = spec_owed(states, zone);
    let plan = spec_spawn_plan(roster_of(owed), coords);
    let spawned = spec_created(plan);
    let live = states.insert(zone, ZoneView::Materialized);
    let after = spec_after_evictions(live, grid, spawned);
    let wanted = states.insert(zone, ZoneView::Dematerialized(owed));
    assert forall|k: int| 0 <= k < spawned.len() implies grid.spec_zone_of(
        (#[trigger] spawned[k]).position,
    ) == zone by {
        let at = k % (coords.len() as int);
        assert(plan[k].position == coords[at]);
        lemma_partition(grid, spawned[k].position, zone);
    }
    assert(seeds_of(spawned) =~= roster_of(owed));
    lemma_tally_roster(owed);
    crate::population::lemma_roster_covers(owed, 0);
    lemma_seeds_in_one_zone(grid, zone, spawned, zone);
    assert forall|other: Zone| after.contains_key(other) <==> wanted.contains_key(other) by {
        lemma_seeds_in_one_zone(grid, zone, spawned, other);
    }
    assert forall|other: Zone| after.contains_key(other) implies #[trigger] after[other]
        == wanted[other] by {
        lemma_seeds_in_one_zone(grid, zone, spawned, other);
    }
    assert(after =~= wanted);
}

/// Conservation in any order: a live zone that loses objects standing in
/// it, at least one and no more than a counter holds, ends up despawned and
/// owed exactly those objects, seed for seed, in whatever order they left.
/// So the objects spawned for a zone, evicted in any order, leave the zone
/// owed what it was spawned from.
pub proof fn lemma_conservation_any_order(
    states: Map<Zone, ZoneView>,
    grid: ZoneGrid,
    zone: Zone,
    evicted: Seq<LiveObject>,
)
    requires
        all_in_zone(grid, zone, evicted),
        0 < evicted.len() <= u32::MAX,
    ensures
        spec_after_evictions(states.insert(zone, ZoneView::Materialized), grid, evicted)[zone]
            matches ZoneView::Dematerialized(owed) && tallies_sound(owed) && roster_of(
            owed,
        ).to_multiset() == seeds_of(evicted).to_multiset() && roster_of(owed).len()
            == evicted.len(),
        forall|other: Zone|
            other != zone ==> (#[trigger] spec_after_evictions(
                states.insert(zone, ZoneView::Materialized),
                grid,
                evicted,
            ).contains_key(other) <==> states.contains_key(other)),
{
    let live = states.insert(zone, ZoneView::Materialized);
    lemma_seeds_in_one_zone(grid, zone, evicted, zone);
    assert(roster_of(Seq::<Tally>::empty()) =~= Seq::<Seed>::empty());
    crate::population::lemma_tally_all_bag(Seq::<Tally>::empty(), seeds_of(evicted));
    roster_of(Seq::<Tally>::empty()).to_multiset_ensures();
    assert(roster_of(Seq::<Tally>::empty()).to_multiset().add(seeds_of(evicted).to_multiset())
        =~= seeds_of(evicted).to_multiset());
    assert forall|other: Zone| other != zone implies (#[trigger] spec_after_evictions(
        live,
        grid,
        evicted,
    ).contains_key(other) <==> states.contains_key(other)) by {
        lemma_seeds_in_one_zone(grid, zone, evicted, other);
    }
}

/// Evicting one more object is one more step of the registry.
pub proof fn lemma_eviction_step(
    states: Map<Zone, ZoneView>,
    grid: ZoneGrid,
    evicted: Seq<LiveObject>,
    object: LiveObject,
)
    ensures
        spec_after_evictions(states, grid, evicted.push(object)) == spec_after_evictions(
            states,
            grid,
            evicted,
        ).insert(
            grid.spec_zone_of(object.position),
            spec_evicted(
                spec_after_evictions(states, grid, evicted),
                grid.spec_zone_of(object.position),
                object.seed,
            ),
        ),
{
    let target = grid.spec_zone_of(object.position);
    let before = spec_after_evictions(states, grid, evicted);
    let after = spec_after_evictions(states, grid, evicted.push(object));
    let stepped = before.insert(target, spec_evicted(before, target, object.seed));
    assert(evicted.push(object).drop_last() =~= evicted);
    assert forall|zone: Zone| after.contains_key(zone) <==> stepped.contains_key(zone) by {}
    assert forall|zone: Zone| after.contains_key(zone) implies #[trigger] after[zone]
        == stepped[zone] by {
        if zone == target {
            let had = seeds_in(grid, zone, evicted);
            let owed = spec_owed(states, zone);
            assert(seeds_in(grid, zone, evicted.push(object)) == had.push(object.seed));
            assert(had.push(object.seed).drop_last() =~= had);
            assert(had.push(object.seed).last() == object.seed);
            assert(spec_tally_all(owed, had.push(object.seed)) == spec_tallied(
                spec_tally_all(owed, had),
                object.seed,
            ));
            if had.len() == 0 {
                assert(spec_tally_all(owed, had) == owed);
            }
        }
    }
    assert(after =~= stepped);
}

/// Picking from one more object keeps the object or not.
pub proof fn lemma_picked_take(objects: Seq<LiveObject>, marks: Seq<bool>, i: int)
    requires
        0 <= i < objects.len(),
        marks.len() == objects.len(),
    ensures
        picked(objects.take(i + 1), marks.take(i + 1)) == (if marks[i] {
            picked(objects.take(i), marks.take(i)).push(objects[i])
        } else {
            picked(objects.take(i), marks.take(i))
        }),
        picked(objects.take(i), marks.take(i)).len() <= i,
{
    assert(objects.take(i + 1).drop_last() =~= objects.take(i));
    assert(marks.take(i + 1).drop_last() =~= marks.take(i));
    lemma_picked_len(objects.take(i), marks.take(i));
}

/// No more objects are picked than there are.
pub proof fn lemma_picked_len(objects: Seq<LiveObject>, marks: Seq<bool>)
    ensures
        picked(objects, marks).len() <= objects.len(),
    decreases objects.len(),
{
    if objects.len() > 0 {
        lemma_picked_len(objects.drop_last(), marks.drop_last());
    }
}

/// Evicts every object that is wanted and not gone yet: each is removed
/// from the world and taken in by the zone in which it stands.
fn evict_marked(
    zones: &mut Zones,
    grid: &ZoneGrid,
    objects: &Vec<LiveObject>,
    gone: &mut Vec<bool>,
    wanted: &Vec<bool>,
) -> (removals: Vec<u64>)
    requires
        old(zones).wf(),
        old(gone)@.len() == objects@.len(),
        wanted@.len() == objects@.len(),
        old(zones).spec_peak() + spec_left(old(gone)@) <= u32::MAX,
    ensures
        final(zones).wf(),
        old(zones).spec_peak() <= final(zones).spec_peak(),
        final(zones).spec_peak() + spec_left(final(gone)@) <= old(zones).spec_peak() + spec_left(
            old(gone)@,
        ),
        spec_left(final(gone)@) + removals@.len() == spec_left(old(gone)@),
        final(gone)@ == spec_gone(old(gone)@, wanted@),
        removals@ == ids_of(picked(objects@, spec_marks(old(gone)@, wanted@))),
        final(zones)@ == spec_after_evictions(
            old(zones)@,
            *grid,
            picked(objects@, spec_marks(old(gone)@, wanted@)),
        ),
{
    let ghost was_gone: Seq<bool> = gone@;
    let ghost marks: Seq<bool> = spec_marks(was_gone, wanted@);
    let ghost start: Map<Zone, ZoneView> = zones@;
    let mut removals: Vec<u64> = Vec::new();
    let mut i: usize = 0;
    proof {
        assert(objects@.take(0) =~= Seq::<LiveObject>::empty());
        assert(removals@ =~= ids_of(picked(objects@.take(0), marks.take(0))));
        assert(zones@ =~= spec_after_evictions(start, *grid, Seq::<LiveObject>::empty()));
    }
    while i < objects.len()
        invariant
            0 <= i <= objects@.len(),
            zones.wf(),
            was_gone.len() == objects@.len(),
            gone@.len() == objects@.len(),
            wanted@.len() == objects@.len(),
            marks == spec_marks(was_gone, wanted@),
            forall|k: int| 0 <= k < i ==> #[trigger] gone@[k] == (was_gone[k] || wanted@[k]),
            forall|k: int| i <= k < objects@.len() ==> #[trigger] gone@[k] == was_gone[k],
            removals@ == ids_of(picked(objects@.take(i as int), marks.take(i as int))),
            zones@ == spec_after_evictions(
                start,
                *grid,
                picked(objects@.take(i as int), marks.take(i as int)),
            ),
            old(zones).spec_peak() <= zones.spec_peak(),
            zones.spec_peak() + spec_left(gone@) <= old(zones).spec_peak() + spec_left(was_gone),
            spec_left(gone@) + removals@.len() == spec_left(was_gone),
            old(zones).spec_peak() + spec_left(was_gone) <= u32::MAX,
        decreases objects@.len() - i,
    {
        let object: LiveObject = objects[i];
        proof {
            lemma_picked_take(objects@, marks, i as int);
        }
        if !gone[i] && wanted[i] {
            let zone: Zone = grid.zone_of(object.position);
            proof {
                lemma_eviction_step(
                    start,
                    *grid,
                    picked(objects@.take(i as int), marks.take(i as int)),
                    object,
                );
                assert(ids_of(picked(objects@.take(i as int), marks.take(i as int)).push(object))
                    =~= removals@.push(object.id));
                lemma_left_set(gone@, i as int);
            }
            zones.insert(zone, object.seed);
            removals.push(object.id);
            gone.set(i, true);
        }
        i = i + 1;
    }
    proof {
        assert(objects@.take(i as int) =~= objects@);
        assert(marks.take(i as int) =~= marks);
        assert(gone@ =~= spec_gone(was_gone, wanted@));
    }
    removals
}

/// For each object, whether it is farther than `dist` from `player`.
fn strayed(objects: &Vec<LiveObject>, player: Position, dist: i64) -> (flags: Vec<bool>)
    ensures
        flags@ == spec_strayed(objects@, player, dist as int),
{
    let mut flags: Vec<bool> = Vec::new();
    let mut i: usize = 0;
    while i < objects.len()
        invariant
            0 <= i <= objects@.len(),
            flags@.len() == i,
            forall|k: int|
                0 <= k < i ==> flags@[k] == spec_clear_of(
                    objects@[k].position,
                    player,
                    dist as int,
                ),
        decreases objects@.len() - i,
    {
        let p: Position = objects[i].position;
        let dx: i128 = p.x as i128 - player.x as i128;
        let dy: i128 = p.y as i128 - player.y as i128;
        flags.push(crate::grid::exceeds(dx, dy, dist));
        i = i + 1;
    }
    proof {
        assert(flags@ =~= spec_strayed(objects@, player, dist as int));
    }
    flags
}

/// For each object, whether it lies in `zone`.
fn within(grid: &ZoneGrid, zone: Zone, objects: &Vec<LiveObject>) -> (flags: Vec<bool>)
    ensures
        flags@ == spec_within(*grid, zone, objects@),
{
    let mut flags: Vec<bool> = Vec::new();
    let mut i: usize = 0;
    while i < objects.len()
        invariant
            0 <= i <= objects@.len(),
            flags@.len() == i,
            forall|k: int| 0 <= k < i ==> flags@[k] == grid.contains(zone, objects@[k].position),
        decreases objects@.len() - i,
    {
        flags.push(zone.inside(grid, objects[i].position));
        i = i + 1;
    }
    proof {
        assert(flags@ =~= spec_within(*grid, zone, objects@));
    }
    flags
}

/// Evicts every object that is farther than the far distance from the
/// player and not gone yet: each is removed from the world and taken in by
/// the zone in which it stands.
pub fn despawn_out_of_zone(
    zones: &mut Zones,
    config: &StreamConfig,
    player: Position,
    objects: &Vec<LiveObject>,
    gone: &mut Vec<bool>,
) -> (removals: Vec<u64>)
    requires
        old(zones).wf(),
        old(gone)@.len() == objects@.len(),
        old(zones).spec_peak() + spec_left(old(gone)@) <= u32::MAX,
    ensures
        final(zones).wf(),
        old(zones).spec_peak() <= final(zones).spec_peak(),
        final(zones).spec_peak() + spec_left(final(gone)@) <= old(zones).spec_peak() + spec_left(
            old(gone)@,
        ),
        spec_left(final(gone)@) + removals@.len() == spec_left(old(gone)@),
        final(gone)@ == spec_gone(
            old(gone)@,
            spec_strayed(objects@, player, config.spec_far_distance()),
        ),
        removals@ == ids_of(
            picked(
                objects@,
                spec_marks(old(gone)@, spec_strayed(objects@, player, config.spec_far_distance())),
            ),
        ),
        final(zones)@ == spec_after_evictions(
            old(zones)@,
            config.spec_grid(),
            picked(
                objects@,
                spec_marks(old(gone)@, spec_strayed(objects@, player, config.spec_far_distance())),
            ),
        ),
{
    let wanted: Vec<bool> = strayed(objects, player, config.far_distance());
    evict_marked(zones, config.grid(), objects, gone, &wanted)
}

/// Despawns `zone` as a whole: every object that lies in it and is not
/// gone yet is evicted, and the zone counts as despawned afterwards. Where
/// no object was evicted, the zone is owed nothing, whatever it was before.
pub fn despawn_zone(
    zones: &mut Zones,
    grid: &ZoneGrid,
    zone: Zone,
    objects: &Vec<LiveObject>,
    gone: &mut Vec<bool>,
) -> (removals: Vec<u64>)
    requires
        old(zones).wf(),
        old(gone)@.len() == objects@.len(),
        old(zones).spec_peak() + spec_left(old(gone)@) <= u32::MAX,
    ensures
        final(zones).wf(),
        old(zones).spec_peak() <= final(zones).spec_peak(),
        final(zones).spec_peak() + spec_left(final(gone)@) <= old(zones).spec_peak() + spec_left(
            old(gone)@,
        ),
        spec_left(final(gone)@) + removals@.len() == spec_left(old(gone)@),
        final(gone)@ == spec_gone(old(gone)@, spec_within(*grid, zone, objects@)),
        removals@ == ids_of(
            picked(objects@, spec_marks(old(gone)@, spec_within(*grid, zone, objects@))),
        ),
        final(zones)@ == spec_zone_despawned(
            old(zones)@,
            zone,
            picked(objects@, spec_marks(old(gone)@, spec_within(*grid, zone, objects@))),
        ),
{
    let wanted: Vec<bool> = within(grid, zone, objects);
    let ghost taken: Seq<LiveObject> = picked(objects@, spec_marks(gone@, wanted@));
    proof {
        use_type_invariant(grid);
        lemma_picked_within(*grid, zone, objects@, gone@);
    }
    let removals: Vec<u64> = evict_marked(zones, grid, objects, gone, &wanted);
    if removals.len() == 0 {
        proof {
            assert(taken =~= Seq::<LiveObject>::empty());
            assert(zones@ =~= old(zones)@);
        }
        zones.mark_despawned(zone);
    } else {
        proof {
            lemma_zone_despawned(old(zones)@, *grid, zone, taken);
        }
    }
    removals
}

/// The visited zones that are live and whose centre is farther than the
/// despawn distance from the player, in the order of first touch.
pub fn despawn_oob_zones(zones: &Zones, config: &StreamConfig, player: Position) -> (doomed: Vec<
    Zone,
>)
    requires
        zones.wf(),
    ensures
        doomed@ == spec_doomed_zones(*zones, *config, player),
{
    let grid: &ZoneGrid = config.grid();
    let dist: i64 = config.despawn_distance();
    let ghost keep = |zone: Zone| spec_doomed(zones@, *grid, player, dist as int, zone);
    let mut doomed: Vec<Zone> = Vec::new();
    let n: usize = zones.len();
    let mut i: usize = 0;
    proof {
        assert(zones.spec_order().take(0) =~= Seq::<Zone>::empty());
        assert(zones.spec_order().take(0).filter(keep) =~= Seq::<Zone>::empty());
    }
    while i < n
        invariant
            0 <= i <= n,
            n == zones.spec_order().len(),
            zones.wf(),
            *grid == config.spec_grid(),
            dist == config.spec_despawn_distance(),
            keep == |zone: Zone| spec_doomed(zones@, *grid, player, dist as int, zone),
            doomed@ == zones.spec_order().take(i as int).filter(keep),
        decreases n - i,
    {
        let zone: Zone = zones.zone_at(i);
        proof {
            assert(zones.spec_order().take(i as int + 1) =~= zones.spec_order().take(
                i as int,
            ).push(zone));
            lemma_filter_push(zones.spec_order().take(i as int), zone, keep);
        }
        if zones.is_spawned(zone) && zone.farther_than(grid, player, dist) {
            doomed.push(zone);
        }
        i = i + 1;
    }
    proof {
        assert(zones.spec_order().take(i as int) =~= zones.spec_order());
    }
    doomed
}

/// Whether `zone` is live.
pub open spec fn spec_is_live(states: Map<Zone, ZoneView>, zone: Zone) -> bool {
    states.contains_key(zone) && states[zone] is Materialized
}

/// The registry after every zone of `around` was brought to life.
pub open spec fn spec_with_live(states: Map<Zone, ZoneView>, around: Seq<Zone>) -> Map<
    Zone,
    ZoneView,
> {
    Map::new(
        |zone: Zone| states.contains_key(zone) || around.contains(zone),
        |zone: Zone|
            if around.contains(zone) {
                ZoneView::Materialized
            } else {
                states[zone]
            },
    )
}

/// Those of `around`, in their order, that are not live.
pub open spec fn spec_woken(states: Map<Zone, ZoneView>, around: Seq<Zone>) -> Seq<Zone> {
    around.filter(|zone: Zone| !spec_is_live(states, zone))
}

/// Whether `batches` bring exactly the zones `woken` to life, in that
/// order, each with the requests for what it is owed.
pub open spec fn spec_are_batches(
    batches: Seq<ZoneBatch>,
    states: Map<Zone, ZoneView>,
    grid: ZoneGrid,
    woken: Seq<Zone>,
) -> bool {
    &&& batches.len() == woken.len()
    &&& forall|k: int|
        0 <= k < batches.len() ==> (#[trigger] batches[k]).zone == woken[k]
            && batches[k].requests@ == spec_zone_plan(states, grid, woken[k])
}

/// Brings the zone of the player and the eight zones around it to life:
/// for each that is not live, what it is owed is requested, and all nine are
/// live afterwards.
pub fn spawn_zones(zones: &mut Zones, grid: &ZoneGrid, player: Position) -> (batches: Vec<
    ZoneBatch,
>)
    requires
        old(zones).wf(),
        grid.roomy(player),
    ensures
        final(zones).wf(),
        final(zones).spec_peak() == old(zones).spec_peak(),
        final(zones)@ == spec_with_live(
            old(zones)@,
            grid.spec_zone_of(player).spec_neighbors(),
        ),
        spec_are_batches(
            batches@,
            old(zones)@,
            *grid,
            spec_woken(old(zones)@, grid.spec_zone_of(player).spec_neighbors()),
        ),
{
    let home: Zone = grid.zone_of(player);
    let around: [Zone; 9] = home.neighbors();
    let ghost start: Map<Zone, ZoneView> = zones@;
    let ghost keep = |zone: Zone| !spec_is_live(start, zone);
    let mut batches: Vec<ZoneBatch> = Vec::new();
    let mut k: usize = 0;
    proof {
        use_type_invariant(grid);
        assert(around@.take(0) =~= Seq::<Zone>::empty());
        assert(around@.take(0).filter(keep) =~= Seq::<Zone>::empty());
        assert(zones@ =~= spec_with_live(start, around@.take(0)));
    }
    while k < 9
        invariant
            0 <= k <= 9,
            zones.wf(),
            grid.valid(),
            grid.roomy(player),
            home == grid.spec_zone_of(player),
            home.has_neighbors(),
            around@ == home.spec_neighbors(),
            keep == |zone: Zone| !spec_is_live(start, zone),
            zones.spec_peak() == old(zones).spec_peak(),
            zones@ == spec_with_live(start, around@.take(k as int)),
            spec_are_batches(batches@, start, *grid, around@.take(k as int).filter(keep)),
        decreases 9 - k,
    {
        let zone: Zone = around[k];
        proof {
            lemma_roomy(*grid, player, k as int);
            assert(around@.take(k as int + 1) =~= around@.take(k as int).push(zone));
            lemma_filter_push(around@.take(k as int), zone, keep);
            assert forall|j: int| 0 <= j < k implies around@.take(k as int)[j] != zone by {
                lemma_neighbors_distinct(home, j, k as int);
            }
            assert(!around@.take(k as int).contains(zone));
        }
        if !zones.is_spawned(zone) {
            let requests: Vec<SpawnRequest> = zones.spawn(grid, zone);
            batches.push(ZoneBatch { zone, requests });
            proof {
                assert(spec_owed(spec_with_live(start, around@.take(k as int)), zone) == spec_owed(
                    start,
                    zone,
                ));
                assert(requests@ == spec_zone_plan(start, *grid, zone));
            }
        }
        proof {
            assert forall|other: Zone|
                around@.take(k as int + 1).contains(other) <==> around@.take(k as int).contains(
                    other,
                ) || other == zone by {
                if around@.take(k as int).contains(other) {
                    let at = choose|at: int|
                        0 <= at < k && around@.take(k as int)[at] == other;
                    assert(around@.take(k as int + 1)[at] == other);
                }
                assert(around@.take(k as int + 1)[k as int] == zone);
            }
            assert(zones@ =~= spec_with_live(start, around@.take(k as int + 1)));
        }
        k = k + 1;
    }
    proof {
        assert(around@.take(9) =~= around@);
    }
    batches
}

/// Populates the zone at the origin for the start of a game: what the zone
/// holds when fresh is requested at its shuffled spawn points, those within
/// `START_CLEARANCE` of the origin left out, and the zone is marked live.
pub fn init_zone(zones: &mut Zones, grid: &ZoneGrid) -> (plan: Vec<SpawnRequest>)
    requires
        old(zones).wf(),
    ensures
        final(zones).wf(),
        final(zones).spec_peak() == old(zones).spec_peak(),
        final(zones)@ == old(zones)@.insert(Zone { row: 0, col: 0 }, ZoneView::Materialized),
        plan@ == spec_start_plan(*grid),
{
    let zone = Zone { row: 0, col: 0 };
    let origin = Position { x: 0, y: 0 };
    proof {
        use_type_invariant(grid);
    }
    let pop: Population = Population::generate(zone);
    let coords: Vec<Position> = zone.rand_coordinates(grid);
    let clear: Vec<Position> = clear_of(&coords, origin, START_CLEARANCE);
    let plan: Vec<SpawnRequest> = pop.spawn_at(&clear);
    zones.mark_spawned(zone);
    plan
}

/// The spawn points of the zone at the origin that the start of a game uses.
pub open spec fn spec_start_coordinates(grid: ZoneGrid) -> Seq<Position> {
    spec_rand_coordinates(grid, Zone { row: 0, col: 0 }).filter(
        |p: Position| spec_clear_of(p, Position { x: 0, y: 0 }, START_CLEARANCE as int),
    )
}

/// The requests that populate the zone at the origin for the start of a
/// game: one for each object that the zone holds when fresh. Where no spawn
/// point is clear of the origin, nothing is requested.
pub open spec fn spec_start_plan(grid: ZoneGrid) -> Seq<SpawnRequest> {
    spec_spawn_plan(
        roster_of(spec_generated_tallies(Zone { row: 0, col: 0 })),
        spec_start_coordinates(grid),
    )
}

/// Where the despawn steps of a tick stand: the registry, which objects
/// are gone, and the handles removed so far.
pub struct Sweep {
    pub states: Map<Zone, ZoneView>,
    pub gone: Seq<bool>,
    pub removals: Seq<u64>,
}

/// The despawn steps after the zones `doomed` were despawned as wholes, one
/// after the other.
pub open spec fn spec_bulk(
    states: Map<Zone, ZoneView>,
    grid: ZoneGrid,
    doomed: Seq<Zone>,
    objects: Seq<LiveObject>,
) -> Sweep
    decreases doomed.len(),
{
    if doomed.len() == 0 {
        Sweep { states, gone: Seq::new(objects.len(), |i: int| false), removals: Seq::empty() }
    } else {
        let prev = spec_bulk(states, grid, doomed.drop_last(), objects);
        let within = spec_within(grid, doomed.last(), objects);
        let taken = picked(objects, spec_marks(prev.gone, within));
        Sweep {
            states: spec_zone_despawned(prev.states, doomed.last(), taken),
            gone: spec_gone(prev.gone, within),
            removals: prev.removals + ids_of(taken),
        }
    }
}

/// The despawn steps after the objects that strayed farther than `dist`
/// from the player were evicted one by one.
pub open spec fn spec_far(
    prev: Sweep,
    grid: ZoneGrid,
    player: Position,
    dist: int,
    objects: Seq<LiveObject>,
) -> Sweep {
    let strayed = spec_strayed(objects, player, dist);
    let taken = picked(objects, spec_marks(prev.gone, strayed));
    Sweep {
        states: spec_after_evictions(prev.states, grid, taken),
        gone: spec_gone(prev.gone, strayed),
        removals: prev.removals + ids_of(taken),
    }
}

/// Both despawn steps of a tick: first the live zones beyond the despawn
/// distance, as wholes, then the single objects beyond the far distance.
pub open spec fn spec_swept(
    zones: Zones,
    config: StreamConfig,
    player: Position,
    objects: Seq<LiveObject>,
) -> Sweep {
    spec_far(
        spec_bulk(zones@, config.spec_grid(), spec_doomed_zones(zones, config, player), objects),
        config.spec_grid(),
        player,
        config.spec_far_distance(),
        objects,
    )
}

/// One tick for a player at `player`. First every live zone whose centre
/// is beyond the despawn distance is despawned as a whole; then every
/// object beyond the far distance that is still there is evicted; then the
/// player's zone and the eight around it are brought to life. No object is
/// evicted twice. Without a player nothing happens.
pub fn tick(
    zones: &mut Zones,
    config: &StreamConfig,
    player: Option<Position>,
    objects: &Vec<LiveObject>,
) -> (plan: TickPlan)
    requires
        old(zones).wf(),
        old(zones).spec_peak() + objects@.len() <= u32::MAX,
        player matches Some(p) ==> config.spec_grid().roomy(p),
    ensures
        final(zones).wf(),
        old(zones).spec_peak() <= final(zones).spec_peak() <= old(zones).spec_peak()
            + plan.removals@.len(),
        plan.removals@.len() <= objects@.len(),
        forall|zone: Zone| old(zones)@.contains_key(zone) ==> final(zones)@.contains_key(zone),
        player is None ==> final(zones)@ == old(zones)@ && plan.removals@.len() == 0
            && plan.batches@.len() == 0,
        player matches Some(p) ==> {
            let swept = spec_swept(*old(zones), *config, p, objects@);
            let around = config.spec_grid().spec_zone_of(p).spec_neighbors();
            &&& plan.removals@ == swept.removals
            &&& final(zones)@ == spec_with_live(swept.states, around)
            &&& spec_are_batches(
                plan.batches@,
                swept.states,
                config.spec_grid(),
                spec_woken(swept.states, around),
            )
        },
{
    let player: Position = match player {
        Some(p) => p,
        None => {
            return TickPlan { removals: Vec::new(), batches: Vec::new() };
        },
    };
    let grid: &ZoneGrid = config.grid();
    let doomed: Vec<Zone> = despawn_oob_zones(zones, config, player);
    let mut gone: Vec<bool> = Vec::new();
    let mut i: usize = 0;
    while i < objects.len()
        invariant
            0 <= i <= objects@.len(),
            gone@.len() == i,
            forall|k: int| 0 <= k < i ==> !gone@[k],
        decreases objects@.len() - i,
    {
        gone.push(false);
        i = i + 1;
    }
    let ghost start: Map<Zone, ZoneView> = zones@;
    let mut removals: Vec<u64> = Vec::new();
    let mut j: usize = 0;
    proof {
        lemma_left_all(gone@);
        assert(doomed@.take(0) =~= Seq::<Zone>::empty());
        assert(gone@ =~= Seq::new(objects@.len(), |i: int| false));
    }
    while j < doomed.len()
        invariant
            0 <= j <= doomed@.len(),
            zones.wf(),
            grid.valid(),
            *grid == config.spec_grid(),
            gone@.len() == objects@.len(),
            forall|zone: Zone| start.contains_key(zone) ==> zones@.contains_key(zone),
            zones@ == spec_bulk(start, *grid, doomed@.take(j as int), objects@).states,
            gone@ == spec_bulk(start, *grid, doomed@.take(j as int), objects@).gone,
            removals@ == spec_bulk(start, *grid, doomed@.take(j as int), objects@).removals,
            old(zones).spec_peak() <= zones.spec_peak(),
            zones.spec_peak() + spec_left(gone@) <= old(zones).spec_peak() + objects@.len(),
            spec_left(gone@) + removals@.len() == objects@.len(),
            old(zones).spec_peak() + objects@.len() <= u32::MAX,
        decreases doomed@.len() - j,
    {
        let zone: Zone = doomed[j];
        proof {
            assert(doomed@.take(j as int + 1).drop_last() =~= doomed@.take(j as int));
        }
        let mut taken: Vec<u64> = despawn_zone(zones, grid, zone, objects, &mut gone);
        removals.append(&mut taken);
        j = j + 1;
    }
    proof {
        assert(doomed@.take(j as int) =~= doomed@);
    }
    let mut strayed: Vec<u64> = despawn_out_of_zone(zones, config, player, objects, &mut gone);
    removals.append(&mut strayed);
    let batches: Vec<ZoneBatch> = spawn_zones(zones, grid, player);
    TickPlan { removals, batches }
}

/// Where no mark is set, nothing is picked.
pub proof fn lemma_picked_none(objects: Seq<LiveObject>, marks: Seq<bool>)
    requires
        marks.len() == objects.len(),
        forall|i: int| 0 <= i < marks.len() ==> !marks[i],
    ensures
        picked(objects, marks) == Seq::<LiveObject>::empty(),
    decreases objects.len(),
{
    if objects.len() > 0 {
        lemma_picked_none(objects.drop_last(), marks.drop_last());
    }
}

/// A zone that is live after zones were despawned as wholes was live before
/// and is none of those zones.
pub proof fn lemma_bulk_live(
    states: Map<Zone, ZoneView>,
    grid: ZoneGrid,
    doomed: Seq<Zone>,
    objects: Seq<LiveObject>,
    zone: Zone,
)
    requires
        spec_is_live(spec_bulk(states, grid, doomed, objects).states, zone),
    ensures
        spec_is_live(states, zone),
        !doomed.contains(zone),
    decreases doomed.len(),
{
    if doomed.len() > 0 {
        let front = doomed.drop_last();
        assert(zone != doomed.last());
        lemma_bulk_live(states, grid, front, objects, zone);
        if doomed.contains(zone) {
            let k = choose|k: int| 0 <= k < doomed.len() && doomed[k] == zone;
            assert(front[k] == zone);
        }
    }
}

/// After a tick, no live zone is beyond the despawn distance: the zones
/// that were have been despawned, and the zones brought to life are within
/// it.
pub proof fn lemma_tick_settles(
    zones: Zones,
    config: StreamConfig,
    player: Position,
    objects: Seq<LiveObject>,
    zone: Zone,
)
    requires
        zones.wf(),
        config.valid(),
    ensures
        !spec_doomed(
            spec_with_live(
                spec_swept(zones, config, player, objects).states,
                config.spec_grid().spec_zone_of(player).spec_neighbors(),
            ),
            config.spec_grid(),
            player,
            config.spec_despawn_distance(),
            zone,
        ),
{
    let grid = config.spec_grid();
    let dist = config.spec_despawn_distance();
    let around = grid.spec_zone_of(player).spec_neighbors();
    let doomed = spec_doomed_zones(zones, config, player);
    let bulk = spec_bulk(zones@, grid, doomed, objects);
    let swept = spec_swept(zones, config, player, objects);
    let after = spec_with_live(swept.states, around);
    if spec_doomed(after, grid, player, dist, zone) {
        if around.contains(zone) {
            let i = choose|i: int| 0 <= i < around.len() && around[i] == zone;
            crate::config::lemma_hysteresis(config, player, i);
        } else {
            assert(spec_is_live(swept.states, zone));
            assert(spec_is_live(bulk.states, zone));
            lemma_bulk_live(zones@, grid, doomed, objects, zone);
            zones.lemma_wf(zone);
            let at = choose|at: int|
                0 <= at < zones.spec_order().len() && zones.spec_order()[at] == zone;
            zones.spec_order().lemma_filter_contains(
                |zone: Zone| spec_doomed(zones@, grid, player, dist, zone),
                at,
            );
        }
    }
}

/// Standing still: where the zones around the player are live, no live
/// zone is beyond the despawn distance and no object beyond the far
/// distance, a tick removes nothing, creates nothing and leaves the
/// registry as it is.
pub proof fn lemma_standing_still(
    zones: Zones,
    config: StreamConfig,
    player: Position,
    objects: Seq<LiveObject>,
)
    requires
        forall|i: int|
            0 <= i < 9 ==> spec_is_live(
                zones@,
                #[trigger] config.spec_grid().spec_zone_of(player).spec_neighbors()[i],
            ),
        forall|zone: Zone|
            !spec_doomed(
                zones@,
                config.spec_grid(),
                player,
                config.spec_despawn_distance(),
                zone,
            ),
        forall|k: int|
            0 <= k < objects.len() ==> !spec_clear_of(
                (#[trigger] objects[k]).position,
                player,
                config.spec_far_distance(),
            ),
    ensures
        spec_swept(zones, config, player, objects).removals == Seq::<u64>::empty(),
        spec_swept(zones, config, player, objects).states == zones@,
        spec_woken(zones@, config.spec_grid().spec_zone_of(player).spec_neighbors())
            == Seq::<Zone>::empty(),
        spec_with_live(zones@, config.spec_grid().spec_zone_of(player).spec_neighbors())
            == zones@,
{
    let grid = config.spec_grid();
    let around = grid.spec_zone_of(player).spec_neighbors();
    let doomed = spec_doomed_zones(zones, config, player);
    if doomed.len() > 0 {
        zones.spec_order().lemma_filter_pred(
            |zone: Zone|
                spec_doomed(zones@, grid, player, config.spec_despawn_distance(), zone),
            0,
        );
    }
    let bulk = spec_bulk(zones@, grid, doomed, objects);
    assert(bulk.states == zones@);
    let strayed = spec_strayed(objects, player, config.spec_far_distance());
    let marks = spec_marks(bulk.gone, strayed);
    lemma_picked_none(objects, marks);
    let swept = spec_swept(zones, config, player, objects);
    assert(swept.states =~= zones@);
    assert(swept.removals =~= Seq::<u64>::empty());
    let woken = spec_woken(zones@, around);
    if woken.len() > 0 {
        around.lemma_filter_pred(|zone: Zone| !spec_is_live(zones@, zone), 0);
        around.lemma_filter_contains_rev(|zone: Zone| !spec_is_live(zones@, zone), woken[0]);
        let i = choose|i: int| 0 <= i < around.len() && around[i] == woken[0];
        assert(spec_is_live(zones@, around[i]));
    }
    assert(woken =~= Seq::<Zone>::empty());
    assert forall|zone: Zone| around.contains(zone) implies spec_is_live(zones@, zone) by {
        let i = choose|i: int| 0 <= i < around.len() && around[i] == zone;
        assert(spec_is_live(zones@, around[i]));
    }
    assert(spec_with_live(zones@, around) =~= zones@);
}

} // verus!
