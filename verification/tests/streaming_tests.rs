use zone_streaming::archetype::{Astroid, Rock, Seed};
use zone_streaming::config::StreamConfig;
use zone_streaming::grid::{Position, Zone};
use zone_streaming::population::Population;
use zone_streaming::registry::{ZoneState, Zones};
use zone_streaming::streaming::{
    despawn_oob_zones, despawn_out_of_zone, despawn_zone, init_zone, spawn_zones, tick,
    LiveObject, START_CLEARANCE,
};

fn rock(bulk: u8, kind: Rock) -> Seed {
    Seed::Rock(Astroid { bulk, kind })
}

fn at(x: i64, y: i64) -> Position {
    Position { x, y }
}

fn owed(zones: &Zones, zone: Zone) -> &Population {
    match zones.get(zone) {
        Some(ZoneState::Despawned(pop)) => pop,
        Some(ZoneState::Spawned) => panic!("the zone is live"),
        None => panic!("the zone was never visited"),
    }
}

fn batch_zones(batches: &Vec<zone_streaming::streaming::ZoneBatch>) -> Vec<Zone> {
    batches.iter().map(|b| b.zone).collect()
}

#[test]
fn the_first_tick_populates_the_nine_zones_around_the_player() {
    let config = StreamConfig::standard();
    let mut zones = Zones::new();
    let plan = tick(&mut zones, &config, Some(at(10, -20)), &Vec::new());
    assert!(plan.removals.is_empty());
    assert_eq!(batch_zones(&plan.batches), Zone { row: 0, col: 0 }.neighbors().to_vec());
    for batch in plan.batches.iter() {
        assert!(zones.is_spawned(batch.zone));
        assert_eq!(batch.requests.len() as u32, Population::generate(batch.zone).size());
        for request in batch.requests.iter() {
            assert!(batch.zone.inside(config.grid(), request.position));
        }
    }
    assert_eq!(zones.len(), 9);
}

#[test]
fn moving_one_zone_on_populates_the_three_zones_that_are_new() {
    let config = StreamConfig::standard();
    let mut zones = Zones::new();
    let first = spawn_zones(&mut zones, config.grid(), at(0, 0));
    assert_eq!(first.len(), 9);
    // the zone at row 1 and column 0 is centred on x = 0, y = 600
    assert_eq!(config.grid().zone_of(at(0, 600)), Zone { row: 1, col: 0 });
    let second = spawn_zones(&mut zones, config.grid(), at(0, 600));
    assert_eq!(
        batch_zones(&second),
        vec![Zone { row: 2, col: -1 }, Zone { row: 2, col: 0 }, Zone { row: 2, col: 1 }]
    );
    for zone in Zone::new(1, 0).neighbors().iter() {
        assert!(zones.is_spawned(*zone));
    }
    assert_eq!(zones.len(), 12);
    assert!(spawn_zones(&mut zones, config.grid(), at(0, 600)).is_empty());
}

#[test]
fn spawn_zones_brings_back_what_a_despawned_zone_is_owed() {
    let config = StreamConfig::standard();
    let mut zones = Zones::new();
    let zone = Zone { row: 0, col: 1 };
    zones.mark_spawned(zone);
    zones.insert(zone, rock(4, Rock::Ice));
    zones.insert(zone, rock(4, Rock::Ice));
    zones.insert(zone, rock(1, Rock::Stone));
    let batches = spawn_zones(&mut zones, config.grid(), at(0, 0));
    assert_eq!(batches.len(), 9);
    let batch = batches.iter().find(|b| b.zone == zone).unwrap();
    let seeds: Vec<Seed> = batch.requests.iter().map(|r| r.seed).collect();
    assert_eq!(seeds, vec![rock(4, Rock::Ice), rock(4, Rock::Ice), rock(1, Rock::Stone)]);
    let coords = zone.rand_coordinates(config.grid());
    for (k, request) in batch.requests.iter().enumerate() {
        assert_eq!(request.position, coords[k]);
    }
    assert!(zones.is_spawned(zone));
}

#[test]
fn live_zones_beyond_the_despawn_distance_are_doomed() {
    let config = StreamConfig::standard();
    let mut zones = Zones::new();
    let far_live = Zone { row: 0, col: 3 };
    let far_owing = Zone { row: 3, col: 0 };
    let near_live = Zone { row: 0, col: 2 };
    let edge_live = Zone { row: 2, col: -2 };
    zones.mark_spawned(far_live);
    zones.mark_spawned(far_owing);
    zones.insert(far_owing, rock(1, Rock::Stone));
    zones.mark_spawned(near_live);
    zones.mark_spawned(edge_live);
    // centres: (1800, 0), (0, 1800), (1200, 0), (-1200, 1200); the last is 1697 away
    assert_eq!(
        despawn_oob_zones(&zones, &config, at(0, 0)),
        vec![far_live, edge_live]
    );
    assert_eq!(despawn_oob_zones(&zones, &config, at(300, 0)), vec![edge_live]);
    assert_eq!(despawn_oob_zones(&zones, &config, at(301, 0)), vec![edge_live]);
    assert!(despawn_oob_zones(&zones, &config, at(0, 600)).contains(&far_live));
    assert!(despawn_oob_zones(&Zones::new(), &config, at(0, 0)).is_empty());
}

#[test]
fn despawning_a_zone_takes_in_the_objects_inside_it() {
    let config = StreamConfig::standard();
    let mut zones = Zones::new();
    let zone = Zone { row: 0, col: 5 };
    zones.mark_spawned(zone);
    let kind = rock(16, Rock::Stone);
    let objects = vec![
        LiveObject { id: 11, position: at(3000, 0), seed: kind },
        LiveObject { id: 12, position: at(2700, -300), seed: kind },
        LiveObject { id: 13, position: at(3299, 299), seed: kind },
        LiveObject { id: 14, position: at(3300, 0), seed: kind },
        LiveObject { id: 15, position: at(2999, 10), seed: kind },
        LiveObject { id: 16, position: at(3000, 300), seed: kind },
        LiveObject { id: 17, position: at(3100, -100), seed: kind },
    ];
    let mut gone = vec![false; objects.len()];
    let removals = despawn_zone(&mut zones, config.grid(), zone, &objects, &mut gone);
    assert_eq!(removals, vec![11, 12, 13, 15, 17]);
    assert_eq!(gone, vec![true, true, true, false, true, false, true]);
    let pop = owed(&zones, zone);
    assert_eq!(pop.size(), 5);
    assert_eq!(pop.count(kind), 5);
    assert_eq!(pop.tallies().len(), 1);
    let left: Vec<&LiveObject> = objects
        .iter()
        .zip(gone.iter())
        .filter(|(object, gone)| !**gone && zone.inside(config.grid(), object.position))
        .map(|(object, _)| object)
        .collect();
    assert!(left.is_empty());
}

#[test]
fn despawning_a_zone_without_objects_leaves_it_owed_nothing() {
    let config = StreamConfig::standard();
    let mut zones = Zones::new();
    let zone = Zone { row: 0, col: 5 };
    zones.mark_spawned(zone);
    let mut gone = Vec::new();
    let removals = despawn_zone(&mut zones, config.grid(), zone, &Vec::new(), &mut gone);
    assert!(removals.is_empty());
    assert!(!zones.is_spawned(zone));
    assert_eq!(owed(&zones, zone).size(), 0);
}

#[test]
fn despawning_a_despawned_zone_without_objects_leaves_it_owed_nothing() {
    let config = StreamConfig::standard();
    let mut zones = Zones::new();
    let zone = Zone { row: 0, col: 0 };
    let kind = rock(4, Rock::Stone);
    zones.mark_spawned(zone);
    zones.insert(zone, kind);
    zones.insert(zone, kind);
    assert_eq!(owed(&zones, zone).count(kind), 2);
    let mut gone = Vec::new();
    let removals = despawn_zone(&mut zones, config.grid(), zone, &Vec::new(), &mut gone);
    assert!(removals.is_empty());
    assert_eq!(owed(&zones, zone).size(), 0);
    assert!(owed(&zones, zone).tallies().is_empty());
    assert_eq!(zones.len(), 1);
}

#[test]
fn despawning_a_zone_looks_only_at_live_objects_inside_it() {
    let config = StreamConfig::standard();
    let mut zones = Zones::new();
    let zone = Zone { row: 0, col: 0 };
    zones.mark_spawned(zone);
    zones.insert(zone, rock(4, Rock::Stone));
    // one object outside the zone, one inside that is gone already
    let objects = vec![
        LiveObject { id: 1, position: at(300, 0), seed: rock(9, Rock::Ice) },
        LiveObject { id: 2, position: at(0, 0), seed: rock(9, Rock::Ice) },
    ];
    let mut gone = vec![false, true];
    let removals = despawn_zone(&mut zones, config.grid(), zone, &objects, &mut gone);
    assert!(removals.is_empty());
    assert_eq!(gone, vec![false, true]);
    assert_eq!(owed(&zones, zone).size(), 0);
}

#[test]
fn despawning_a_zone_never_visited_leaves_it_owed_what_lay_in_it() {
    let config = StreamConfig::standard();
    let mut zones = Zones::new();
    let zone = Zone { row: 3, col: 3 };
    let mut gone = Vec::new();
    despawn_zone(&mut zones, config.grid(), zone, &Vec::new(), &mut gone);
    assert_eq!(owed(&zones, zone).size(), 0);
    let other = Zone { row: -3, col: 3 };
    let objects = vec![LiveObject { id: 1, position: at(1800, -1800), seed: rock(200, Rock::Ice) }];
    let mut gone = vec![false];
    let removals = despawn_zone(&mut zones, config.grid(), other, &objects, &mut gone);
    assert_eq!(removals, vec![1]);
    let fresh = Population::generate(other);
    assert_eq!(owed(&zones, other).size(), fresh.size() + 1);
    assert_eq!(owed(&zones, other).count(rock(200, Rock::Ice)), 1);
}

#[test]
fn despawning_a_zone_skips_objects_that_are_gone() {
    let config = StreamConfig::standard();
    let mut zones = Zones::new();
    let zone = Zone { row: 0, col: 0 };
    zones.mark_spawned(zone);
    zones.insert(zone, rock(1, Rock::Ice));
    let objects = vec![
        LiveObject { id: 1, position: at(0, 0), seed: rock(4, Rock::Ice) },
        LiveObject { id: 2, position: at(1, 1), seed: rock(9, Rock::Ice) },
    ];
    let mut gone = vec![true, false];
    let removals = despawn_zone(&mut zones, config.grid(), zone, &objects, &mut gone);
    assert_eq!(removals, vec![2]);
    assert_eq!(gone, vec![true, true]);
    let pop = owed(&zones, zone);
    assert_eq!(pop.size(), 2);
    assert_eq!(pop.count(rock(1, Rock::Ice)), 1);
    assert_eq!(pop.count(rock(9, Rock::Ice)), 1);
    assert_eq!(pop.count(rock(4, Rock::Ice)), 0);
}

#[test]
fn a_far_zone_with_five_rocks_is_owed_five_after_the_tick() {
    let config = StreamConfig::standard();
    let mut zones = Zones::new();
    let zone = Zone { row: 0, col: 0 };
    zones.mark_spawned(zone);
    let kind = rock(4, Rock::Metal);
    let objects: Vec<LiveObject> = (0..5)
        .map(|k| LiveObject { id: 100 + k, position: at(-200 + 100 * k as i64, 50), seed: kind })
        .collect();
    // the player is 1501 from the centre of the zone, the rocks are nearer than 2400
    let player = at(1501, 0);
    let plan = tick(&mut zones, &config, Some(player), &objects);
    assert_eq!(plan.removals, vec![100, 101, 102, 103, 104]);
    let pop = owed(&zones, zone);
    assert_eq!(pop.size(), 5);
    assert_eq!(pop.count(kind), 5);
    assert_eq!(pop.tallies().len(), 1);
    for object in objects.iter() {
        assert!(zone.inside(config.grid(), object.position));
        assert!(plan.removals.contains(&object.id));
    }
    assert!(!batch_zones(&plan.batches).contains(&zone));
}

#[test]
fn a_zone_at_the_despawn_distance_stays() {
    let config = StreamConfig::standard();
    let mut zones = Zones::new();
    let zone = Zone { row: 0, col: 0 };
    zones.mark_spawned(zone);
    let objects = vec![LiveObject { id: 1, position: at(0, 0), seed: rock(4, Rock::Metal) }];
    let plan = tick(&mut zones, &config, Some(at(1500, 0)), &objects);
    assert!(plan.removals.is_empty());
    assert!(zones.is_spawned(zone));
}

#[test]
fn strays_are_taken_in_by_the_zone_in_which_they_stand() {
    let config = StreamConfig::standard();
    let mut zones = Zones::new();
    let live = Zone { row: 0, col: 4 };
    let owing = Zone { row: 4, col: 0 };
    let fresh = Zone { row: -4, col: -4 };
    zones.mark_spawned(live);
    zones.mark_spawned(owing);
    zones.insert(owing, rock(1, Rock::Stone));
    let objects = vec![
        LiveObject { id: 1, position: at(2401, 0), seed: rock(4, Rock::Ice) },
        LiveObject { id: 2, position: at(2400, 0), seed: rock(4, Rock::Ice) },
        LiveObject { id: 3, position: at(0, 2500), seed: rock(1, Rock::Stone) },
        LiveObject { id: 4, position: at(-2400, -2400), seed: rock(200, Rock::Metal) },
        LiveObject { id: 5, position: at(100, 100), seed: rock(9, Rock::Ice) },
        LiveObject { id: 6, position: at(2500, 100), seed: rock(4, Rock::Ice) },
    ];
    let mut gone = vec![false; objects.len()];
    let removals = despawn_out_of_zone(&mut zones, &config, at(0, 0), &objects, &mut gone);
    assert_eq!(removals, vec![1, 3, 4, 6]);
    assert_eq!(gone, vec![true, false, true, true, false, true]);
    assert_eq!(owed(&zones, live).size(), 2);
    assert_eq!(owed(&zones, live).count(rock(4, Rock::Ice)), 2);
    assert_eq!(owed(&zones, owing).size(), 2);
    assert_eq!(owed(&zones, owing).count(rock(1, Rock::Stone)), 2);
    let generated = Population::generate(fresh);
    assert_eq!(owed(&zones, fresh).size(), generated.size() + 1);
    assert_eq!(owed(&zones, fresh).count(rock(200, Rock::Metal)), 1);
}

#[test]
fn no_object_is_evicted_twice_in_a_tick() {
    let config = StreamConfig::standard();
    let mut zones = Zones::new();
    let zone = Zone { row: 0, col: 5 };
    zones.mark_spawned(zone);
    // inside a zone that is despawned as a whole, and beyond the far distance too
    let objects = vec![
        LiveObject { id: 7, position: at(3000, 0), seed: rock(4, Rock::Ice) },
        LiveObject { id: 8, position: at(2800, 10), seed: rock(4, Rock::Ice) },
    ];
    let plan = tick(&mut zones, &config, Some(at(0, 0)), &objects);
    assert_eq!(plan.removals, vec![7, 8]);
    assert_eq!(owed(&zones, zone).size(), 2);
    assert_eq!(owed(&zones, zone).count(rock(4, Rock::Ice)), 2);
    assert_eq!(zones.peak(), 100);
}

#[test]
fn despawning_comes_before_spawning() {
    let config = StreamConfig::standard();
    let mut zones = Zones::new();
    spawn_zones(&mut zones, config.grid(), at(0, 0));
    // three zones on, the old neighbourhood is partly out of reach
    let plan = tick(&mut zones, &config, Some(at(1800, 0)), &Vec::new());
    let home = Zone { row: 0, col: 3 };
    for zone in home.neighbors().iter() {
        assert!(zones.is_spawned(*zone));
    }
    for col in -1..=0 {
        for row in -1..=1 {
            assert!(!zones.is_spawned(Zone { row, col }));
            assert_eq!(owed(&zones, Zone { row, col }).size(), 0);
        }
    }
    assert!(zones.is_spawned(Zone { row: 0, col: 1 }));
    assert_eq!(plan.batches.len(), 9);
    assert!(plan.removals.is_empty());
}

#[test]
fn without_a_player_nothing_happens() {
    let config = StreamConfig::standard();
    let mut zones = Zones::new();
    let zone = Zone { row: 0, col: 9 };
    zones.mark_spawned(zone);
    let objects = vec![LiveObject { id: 1, position: at(5400, 0), seed: rock(4, Rock::Ice) }];
    let plan = tick(&mut zones, &config, None, &objects);
    assert!(plan.removals.is_empty());
    assert!(plan.batches.is_empty());
    assert!(zones.is_spawned(zone));
    assert_eq!(zones.len(), 1);
    assert_eq!(zones.peak(), 100);
}

#[test]
fn a_zone_that_is_emptied_and_visited_again_stays_empty() {
    let config = StreamConfig::standard();
    let mut zones = Zones::new();
    spawn_zones(&mut zones, config.grid(), at(0, 0));
    // every rock was destroyed; the player leaves and comes back
    tick(&mut zones, &config, Some(at(6000, 0)), &Vec::new());
    assert_eq!(owed(&zones, Zone { row: 0, col: 0 }).size(), 0);
    let back = tick(&mut zones, &config, Some(at(0, 0)), &Vec::new());
    assert_eq!(back.batches.len(), 9);
    for batch in back.batches.iter() {
        assert!(batch.requests.is_empty());
    }
    assert!(zones.is_spawned(Zone { row: 0, col: 0 }));
}

#[test]
fn the_start_keeps_the_origin_clear() {
    let config = StreamConfig::standard();
    let mut zones = Zones::new();
    let plan = init_zone(&mut zones, config.grid());
    let zone = Zone { row: 0, col: 0 };
    assert!(zones.is_spawned(zone));
    assert_eq!(zones.len(), 1);
    let fresh = Population::generate(zone);
    assert_eq!(plan.len() as u32, fresh.size());
    let mut asked = Population::new();
    for request in plan.iter() {
        let p = request.position;
        assert!(p.x * p.x + p.y * p.y > START_CLEARANCE * START_CLEARANCE);
        assert!(zone.inside(config.grid(), p));
        asked.insert(request.seed);
    }
    for tally in fresh.tallies().iter() {
        assert_eq!(asked.count(tally.seed), tally.count);
    }
    let coords: Vec<Position> = zone
        .rand_coordinates(config.grid())
        .into_iter()
        .filter(|p| *p != at(0, 0))
        .collect();
    for (k, request) in plan.iter().enumerate() {
        assert_eq!(request.position, coords[k]);
    }
}

#[test]
fn the_start_asks_for_nothing_where_no_point_is_clear() {
    let grid = zone_streaming::grid::ZoneGrid::new(10).unwrap();
    let mut zones = Zones::new();
    let plan = init_zone(&mut zones, &grid);
    assert!(plan.is_empty());
    assert!(zones.is_spawned(Zone { row: 0, col: 0 }));
}

#[test]
fn a_second_tick_at_the_same_position_asks_for_nothing() {
    let config = StreamConfig::standard();
    let mut zones = Zones::new();
    let far_zone = Zone { row: 0, col: 6 };
    zones.mark_spawned(far_zone);
    let player = at(299, -300);
    let before = vec![
        LiveObject { id: 1, position: at(3600, 0), seed: rock(4, Rock::Ice) },
        LiveObject { id: 2, position: at(100, 2000), seed: rock(1, Rock::Stone) },
        LiveObject { id: 3, position: at(-2500, 0), seed: rock(9, Rock::Metal) },
    ];
    let first = tick(&mut zones, &config, Some(player), &before);
    assert_eq!(first.removals, vec![1, 3]);
    assert_eq!(first.batches.len(), 9);
    // the world applies the plan: what was removed is gone, what was asked for is there
    let mut world: Vec<LiveObject> =
        before.iter().filter(|o| !first.removals.contains(&o.id)).copied().collect();
    let mut next_id = 1000;
    for batch in first.batches.iter() {
        for request in batch.requests.iter() {
            world.push(LiveObject { id: next_id, position: request.position, seed: request.seed });
            next_id += 1;
        }
    }
    let visited = zones.len();
    let peak = zones.peak();
    let second = tick(&mut zones, &config, Some(player), &world);
    assert!(second.removals.is_empty());
    assert!(second.batches.is_empty());
    assert_eq!(zones.len(), visited);
    assert_eq!(zones.peak(), peak);
    for zone in Zone::new(0, 0).neighbors().iter() {
        assert!(zones.is_spawned(*zone));
    }
    assert!(!zones.is_spawned(far_zone));
    assert_eq!(owed(&zones, far_zone).count(rock(4, Rock::Ice)), 1);
}
