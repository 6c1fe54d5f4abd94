use zone_streaming::archetype::{Astroid, Rock, Seed};
use zone_streaming::generator::MAX_COUNT;
use zone_streaming::grid::{Zone, ZoneGrid};
use zone_streaming::population::Population;
use zone_streaming::registry::{ZoneState, Zones};

fn rock(bulk: u8, kind: Rock) -> Seed {
    Seed::Rock(Astroid { bulk, kind })
}

fn owed(zones: &Zones, zone: Zone) -> &Population {
    match zones.get(zone) {
        Some(ZoneState::Despawned(pop)) => pop,
        Some(ZoneState::Spawned) => panic!("the zone is live"),
        None => panic!("the zone was never visited"),
    }
}

#[test]
fn a_new_registry_knows_no_zone() {
    let zones = Zones::new();
    assert_eq!(zones.len(), 0);
    assert!(zones.get(Zone { row: 0, col: 0 }).is_none());
    assert!(!zones.is_spawned(Zone { row: 0, col: 0 }));
    assert_eq!(zones.peak(), MAX_COUNT);
}

#[test]
fn state_insert_turns_a_live_zone_into_one_that_is_owed_the_object() {
    let mut state = ZoneState::Spawned;
    state.insert(rock(4, Rock::Ice));
    match &state {
        ZoneState::Despawned(pop) => {
            assert_eq!(pop.size(), 1);
            assert_eq!(pop.count(rock(4, Rock::Ice)), 1);
        }
        ZoneState::Spawned => panic!("still live"),
    }
    state.insert(rock(4, Rock::Ice));
    state.insert(rock(1, Rock::Stone));
    match &state {
        ZoneState::Despawned(pop) => {
            assert_eq!(pop.size(), 3);
            assert_eq!(pop.count(rock(4, Rock::Ice)), 2);
            assert_eq!(pop.count(rock(1, Rock::Stone)), 1);
        }
        ZoneState::Spawned => panic!("still live"),
    }
}

#[test]
fn evicting_into_a_live_zone_leaves_it_owed_that_one_object() {
    let mut zones = Zones::new();
    let zone = Zone { row: 2, col: 3 };
    let kind = rock(9, Rock::Metal);
    zones.mark_spawned(zone);
    assert!(zones.is_spawned(zone));
    zones.insert(zone, kind);
    assert!(!zones.is_spawned(zone));
    let pop = owed(&zones, zone);
    assert_eq!(pop.size(), 1);
    assert_eq!(pop.count(kind), 1);
    assert_eq!(pop.tallies().len(), 1);
    assert_eq!(zones.len(), 1);
}

#[test]
fn evicting_into_a_despawned_zone_counts_one_more() {
    let mut zones = Zones::new();
    let zone = Zone { row: -1, col: 4 };
    zones.mark_spawned(zone);
    zones.insert(zone, rock(9, Rock::Metal));
    zones.insert(zone, rock(9, Rock::Metal));
    zones.insert(zone, rock(1, Rock::Ice));
    zones.insert(zone, rock(9, Rock::Metal));
    let pop = owed(&zones, zone);
    assert_eq!(pop.size(), 4);
    assert_eq!(pop.count(rock(9, Rock::Metal)), 3);
    assert_eq!(pop.count(rock(1, Rock::Ice)), 1);
    assert_eq!(zones.peak(), MAX_COUNT);
}

#[test]
fn the_peak_follows_the_zone_that_is_owed_most() {
    let mut zones = Zones::new();
    let a = Zone { row: 0, col: 0 };
    let b = Zone { row: 0, col: 1 };
    zones.mark_spawned(a);
    zones.mark_spawned(b);
    for _ in 0..MAX_COUNT {
        zones.insert(a, rock(1, Rock::Stone));
        zones.insert(b, rock(1, Rock::Stone));
    }
    assert_eq!(zones.peak(), MAX_COUNT);
    zones.insert(a, rock(1, Rock::Stone));
    assert_eq!(zones.peak(), MAX_COUNT + 1);
    zones.insert(b, rock(1, Rock::Stone));
    assert_eq!(zones.peak(), MAX_COUNT + 1);
    zones.insert(b, rock(4, Rock::Ice));
    assert_eq!(zones.peak(), MAX_COUNT + 2);
    zones.mark_spawned(b);
    assert_eq!(zones.peak(), MAX_COUNT + 2);
}

#[test]
fn evicting_into_a_zone_never_visited_adds_to_what_it_holds_when_fresh() {
    let mut zones = Zones::new();
    let zone = Zone { row: 7, col: 7 };
    let fresh = Population::generate(zone);
    let stray = rock(200, Rock::Metal);
    assert_eq!(fresh.count(stray), 0);
    zones.insert(zone, stray);
    let pop = owed(&zones, zone);
    assert_eq!(pop.size(), fresh.size() + 1);
    assert_eq!(pop.count(stray), 1);
    for tally in fresh.tallies().iter() {
        assert_eq!(pop.count(tally.seed), tally.count);
    }
}

#[test]
fn zones_are_kept_apart() {
    let mut zones = Zones::new();
    let a = Zone { row: 1, col: 2 };
    let b = Zone { row: 2, col: 1 };
    zones.mark_spawned(a);
    zones.mark_spawned(b);
    zones.insert(a, rock(4, Rock::Ice));
    assert!(zones.is_spawned(b));
    assert_eq!(owed(&zones, a).size(), 1);
    zones.insert(b, rock(1, Rock::Stone));
    assert_eq!(owed(&zones, a).count(rock(4, Rock::Ice)), 1);
    assert_eq!(owed(&zones, a).count(rock(1, Rock::Stone)), 0);
    assert_eq!(owed(&zones, b).count(rock(1, Rock::Stone)), 1);
    assert_eq!(zones.len(), 2);
    assert_eq!(zones.zone_at(0), a);
    assert_eq!(zones.zone_at(1), b);
}

#[test]
fn spawning_a_zone_never_visited_asks_for_what_it_holds_when_fresh() {
    let grid = ZoneGrid::standard();
    let mut zones = Zones::new();
    let zone = Zone { row: 0, col: 1 };
    let fresh = Population::generate(zone);
    let coords = zone.rand_coordinates(&grid);
    let plan = zones.spawn(&grid, zone);
    assert!(zones.is_spawned(zone));
    assert_eq!(plan.len() as u32, fresh.size());
    let mut asked = Population::new();
    for (k, request) in plan.iter().enumerate() {
        asked.insert(request.seed);
        assert_eq!(request.position, coords[k % coords.len()]);
        assert!(zone.inside(&grid, request.position));
    }
    for tally in fresh.tallies().iter() {
        assert_eq!(asked.count(tally.seed), tally.count);
    }
}

#[test]
fn spawning_a_live_zone_asks_for_nothing() {
    let grid = ZoneGrid::standard();
    let mut zones = Zones::new();
    let zone = Zone { row: 0, col: 1 };
    assert!(!zones.spawn(&grid, zone).is_empty());
    assert!(zones.spawn(&grid, zone).is_empty());
    assert!(zones.is_spawned(zone));
    assert_eq!(zones.len(), 1);
}

#[test]
fn spawning_a_despawned_zone_asks_only_for_what_is_left() {
    let grid = ZoneGrid::standard();
    let mut zones = Zones::new();
    let zone = Zone { row: 5, col: 5 };
    let first = zones.spawn(&grid, zone);
    assert!(first.len() >= 10);
    zones.insert(zone, first[0].seed);
    zones.insert(zone, first[1].seed);
    let second = zones.spawn(&grid, zone);
    assert_eq!(second.len(), 2);
    let mut asked = Population::new();
    for request in second.iter() {
        asked.insert(request.seed);
    }
    let mut given = Population::new();
    given.insert(first[0].seed);
    given.insert(first[1].seed);
    for tally in given.tallies().iter() {
        assert_eq!(asked.count(tally.seed), tally.count);
    }
    assert!(zones.is_spawned(zone));
}

#[test]
fn spawning_and_evicting_everything_gives_the_population_back() {
    let grid = ZoneGrid::standard();
    let mut zones = Zones::new();
    let zone = Zone { row: -2, col: 6 };
    let fresh = Population::generate(zone);
    let plan = zones.spawn(&grid, zone);
    for request in plan.iter() {
        assert_eq!(grid.zone_of(request.position), zone);
        zones.insert(grid.zone_of(request.position), request.seed);
    }
    let pop = owed(&zones, zone);
    assert_eq!(pop.size(), fresh.size());
    assert_eq!(pop.tallies().clone(), fresh.tallies().clone());
    for tally in fresh.tallies().iter() {
        assert_eq!(pop.count(tally.seed), tally.count);
    }
}

#[test]
fn mark_despawned_leaves_a_zone_owed_nothing() {
    let mut zones = Zones::new();
    let live = Zone { row: 0, col: 0 };
    let owing = Zone { row: 0, col: 1 };
    let unknown = Zone { row: 0, col: 2 };
    zones.mark_spawned(live);
    zones.mark_spawned(owing);
    zones.insert(owing, rock(4, Rock::Ice));
    zones.mark_despawned(live);
    zones.mark_despawned(owing);
    zones.mark_despawned(unknown);
    assert_eq!(owed(&zones, live).size(), 0);
    assert_eq!(owed(&zones, owing).size(), 0);
    assert_eq!(owed(&zones, unknown).size(), 0);
    assert_eq!(zones.len(), 3);
}

#[test]
fn a_state_tells_how_much_it_owes() {
    let mut state = ZoneState::Spawned;
    assert_eq!(state.owed(), 0);
    state.insert(rock(4, Rock::Ice));
    state.insert(rock(1, Rock::Ice));
    assert_eq!(state.owed(), 2);
}
