use zone_streaming::archetype::{Astroid, Rock, Seed};
use zone_streaming::generator::{clear_of, object_at, size_class, MAX_COUNT, MIN_COUNT};
use zone_streaming::grid::{Position, Zone, ZoneGrid};
use zone_streaming::population::{Population, Tally};

fn rock(bulk: u8, kind: Rock) -> Seed {
    Seed::Rock(Astroid { bulk, kind })
}

fn sorted(mut coords: Vec<Position>) -> Vec<(i64, i64)> {
    let mut pairs: Vec<(i64, i64)> = coords.drain(..).map(|p| (p.x, p.y)).collect();
    pairs.sort();
    pairs
}

#[test]
fn rolls_are_split_into_ice_metal_and_stone() {
    assert_eq!(Rock::from_roll(0), Rock::Ice);
    assert_eq!(Rock::from_roll(299), Rock::Ice);
    assert_eq!(Rock::from_roll(300), Rock::Metal);
    assert_eq!(Rock::from_roll(399), Rock::Metal);
    assert_eq!(Rock::from_roll(400), Rock::Stone);
    assert_eq!(Rock::from_roll(999), Rock::Stone);
}

#[test]
fn bulk_is_the_square_of_the_size_class_counted_from_one() {
    assert_eq!(Astroid::of_size(0, Rock::Stone).bulk, 1);
    assert_eq!(Astroid::of_size(1, Rock::Stone).bulk, 4);
    assert_eq!(Astroid::of_size(2, Rock::Ice).bulk, 9);
    assert_eq!(Astroid::of_size(14, Rock::Metal).bulk, 225);
    assert_eq!(Astroid::of_size(14, Rock::Metal).kind, Rock::Metal);
}

#[test]
fn bulk_is_cut_to_eight_bits() {
    assert_eq!(Astroid::of_size(15, Rock::Stone).bulk, 0);
    assert_eq!(Astroid::of_size(16, Rock::Stone).bulk, 33);
    assert_eq!(Astroid::of_size(255, Rock::Stone).bulk, 0);
}

#[test]
fn health_is_ten_per_unit_of_bulk() {
    assert_eq!(Astroid { bulk: 4, kind: Rock::Ice }.health(), 40);
    assert_eq!(Astroid { bulk: 0, kind: Rock::Ice }.health(), 0);
    assert_eq!(Astroid { bulk: 255, kind: Rock::Stone }.health(), 2550);
}

#[test]
fn rocks_break_into_halves_until_they_cannot() {
    assert_eq!(
        Astroid { bulk: 9, kind: Rock::Metal }.shard(),
        Some(Astroid { bulk: 4, kind: Rock::Metal })
    );
    assert_eq!(
        Astroid { bulk: 2, kind: Rock::Ice }.shard(),
        Some(Astroid { bulk: 1, kind: Rock::Ice })
    );
    assert_eq!(Astroid { bulk: 1, kind: Rock::Ice }.shard(), None);
    assert_eq!(Astroid { bulk: 0, kind: Rock::Ice }.shard(), None);
}

#[test]
fn seeds_are_filed_under_bulk_and_material() {
    assert_eq!(rock(4, Rock::Stone).key(), (4, 0));
    assert_eq!(rock(4, Rock::Ice).key(), (4, 1));
    assert_eq!(rock(255, Rock::Metal).key(), (255, 2));
}

#[test]
fn a_new_population_owes_nothing() {
    let pop = Population::new();
    assert_eq!(pop.size(), 0);
    assert_eq!(pop.count(rock(1, Rock::Stone)), 0);
    assert!(pop.tallies().is_empty());
}

#[test]
fn insert_counts_per_seed() {
    let mut pop = Population::new();
    pop.insert(rock(4, Rock::Ice));
    pop.insert(rock(1, Rock::Stone));
    pop.insert(rock(4, Rock::Ice));
    pop.insert(rock(4, Rock::Metal));
    pop.insert(rock(4, Rock::Ice));
    assert_eq!(pop.size(), 5);
    assert_eq!(pop.count(rock(4, Rock::Ice)), 3);
    assert_eq!(pop.count(rock(1, Rock::Stone)), 1);
    assert_eq!(pop.count(rock(4, Rock::Metal)), 1);
    assert_eq!(pop.count(rock(1, Rock::Ice)), 0);
    assert_eq!(
        pop.tallies().clone(),
        vec![
            Tally { seed: rock(4, Rock::Ice), count: 3 },
            Tally { seed: rock(1, Rock::Stone), count: 1 },
            Tally { seed: rock(4, Rock::Metal), count: 1 },
        ]
    );
}

#[test]
fn insert_keeps_many_seeds_apart() {
    let mut pop = Population::new();
    let kinds = [Rock::Stone, Rock::Ice, Rock::Metal];
    for round in 0..3u32 {
        for bulk in 0..=255u8 {
            for kind in kinds.iter() {
                pop.insert(rock(bulk, *kind));
            }
        }
        assert_eq!(pop.size(), 768 * (round + 1));
    }
    assert_eq!(pop.tallies().len(), 768);
    for bulk in 0..=255u8 {
        for kind in kinds.iter() {
            assert_eq!(pop.count(rock(bulk, *kind)), 3);
        }
    }
}

#[test]
fn spawn_at_walks_the_roster_and_the_coordinates() {
    let mut pop = Population::new();
    pop.insert(rock(4, Rock::Ice));
    pop.insert(rock(1, Rock::Stone));
    pop.insert(rock(4, Rock::Ice));
    let coords = vec![Position { x: 1, y: 2 }, Position { x: 3, y: 4 }, Position { x: 5, y: 6 }];
    let plan = pop.spawn_at(&coords);
    assert_eq!(plan.len(), 3);
    assert_eq!(plan[0].seed, rock(4, Rock::Ice));
    assert_eq!(plan[1].seed, rock(4, Rock::Ice));
    assert_eq!(plan[2].seed, rock(1, Rock::Stone));
    assert_eq!(plan[0].position, coords[0]);
    assert_eq!(plan[1].position, coords[1]);
    assert_eq!(plan[2].position, coords[2]);
}

#[test]
fn spawn_at_starts_the_coordinates_over_when_they_run_out() {
    let mut pop = Population::new();
    for _ in 0..5 {
        pop.insert(rock(9, Rock::Metal));
    }
    let coords = vec![Position { x: 10, y: 0 }, Position { x: 20, y: 0 }];
    let plan = pop.spawn_at(&coords);
    assert_eq!(plan.len(), 5);
    let xs: Vec<i64> = plan.iter().map(|r| r.position.x).collect();
    assert_eq!(xs, vec![10, 20, 10, 20, 10]);
}

#[test]
fn spawn_at_asks_for_nothing_without_coordinates() {
    let mut pop = Population::new();
    pop.insert(rock(9, Rock::Metal));
    assert!(pop.spawn_at(&Vec::new()).is_empty());
    assert!(Population::new().spawn_at(&vec![Position { x: 0, y: 0 }]).is_empty());
}

#[test]
fn a_fresh_zone_holds_ten_to_ninety_nine_objects() {
    for row in -3..=3 {
        for col in -3..=3 {
            let pop = Population::generate(Zone { row, col });
            assert!(pop.size() >= MIN_COUNT);
            assert!(pop.size() < MAX_COUNT);
            assert!(pop.size() >= 10 && pop.size() < 100);
            let summed: u32 = pop.tallies().iter().map(|t| t.count).sum();
            assert_eq!(summed, pop.size());
        }
    }
}

#[test]
fn generating_twice_gives_the_same_population() {
    let zone = Zone { row: 0, col: 0 };
    let first = Population::generate(zone);
    let second = Population::generate(zone);
    assert!(first.size() >= 10 && first.size() < 100);
    assert_eq!(first.size(), second.size());
    assert_eq!(first.tallies().clone(), second.tallies().clone());
    for tally in first.tallies().iter() {
        assert_eq!(second.count(tally.seed), tally.count);
    }
    let far = Zone { row: -123_456_789, col: 987_654_321 };
    assert_eq!(
        Population::generate(far).tallies().clone(),
        Population::generate(far).tallies().clone()
    );
}

#[test]
fn generated_rocks_have_the_bulk_of_a_size_class() {
    let squares: Vec<u8> = (0u32..=15).map(|s| (((s + 1) * (s + 1)) % 256) as u8).collect();
    let mut small = 0;
    let mut total = 0;
    for row in 0..4 {
        for col in 0..4 {
            let pop = Population::generate(Zone { row, col });
            for tally in pop.tallies().iter() {
                let Seed::Rock(found) = tally.seed;
                assert!(squares.contains(&found.bulk));
                assert!(tally.count >= 1);
                total += tally.count;
                if found.bulk == 1 || found.bulk == 4 || found.bulk == 9 {
                    small += tally.count;
                }
            }
        }
    }
    // with one hit in ten over fifteen trials, four rocks in five have at most two hits
    assert!(small * 2 > total);
}

#[test]
fn generated_rocks_come_in_every_material() {
    let mut stone = 0;
    let mut ice = 0;
    let mut metal = 0;
    for row in 0..4 {
        for col in 0..4 {
            let pop = Population::generate(Zone { row, col });
            for tally in pop.tallies().iter() {
                let Seed::Rock(found) = tally.seed;
                match found.kind {
                    Rock::Stone => stone += tally.count,
                    Rock::Ice => ice += tally.count,
                    Rock::Metal => metal += tally.count,
                }
            }
        }
    }
    assert!(stone > 0 && ice > 0 && metal > 0);
    assert!(stone > ice && ice > metal);
}

#[test]
fn different_zones_hold_different_populations() {
    let base = Population::generate(Zone { row: 0, col: 0 });
    let mut differing = 0;
    for col in 1..=8 {
        let other = Population::generate(Zone { row: 0, col });
        if other.tallies().clone() != base.tallies().clone() {
            differing += 1;
        }
    }
    assert!(differing >= 7);
    let swapped_a = Population::generate(Zone { row: 1, col: 2 });
    let swapped_b = Population::generate(Zone { row: 2, col: 1 });
    assert_ne!(swapped_a.tallies().clone(), swapped_b.tallies().clone());
}

#[test]
fn rand_coordinates_are_the_grid_coordinates_in_another_order() {
    let grid = ZoneGrid::standard();
    for zone in [Zone { row: 0, col: 0 }, Zone { row: 2, col: 3 }, Zone { row: -5, col: 1 }] {
        let lattice = zone.grid_coordinates(&grid);
        let shuffled = zone.rand_coordinates(&grid);
        assert_eq!(shuffled.len(), 225);
        assert_ne!(shuffled, lattice);
        assert_eq!(sorted(shuffled.clone()), sorted(lattice));
        for p in shuffled.iter() {
            assert!(zone.inside(&grid, *p));
        }
    }
}

#[test]
fn rand_coordinates_are_the_same_every_time() {
    let grid = ZoneGrid::standard();
    let zone = Zone { row: 2, col: 3 };
    assert_eq!(zone.rand_coordinates(&grid), zone.rand_coordinates(&grid));
    let other = Zone { row: 3, col: 2 };
    let moved: Vec<Position> = other
        .rand_coordinates(&grid)
        .iter()
        .map(|p| Position { x: p.x + 600, y: p.y - 600 })
        .collect();
    assert_ne!(zone.rand_coordinates(&grid), moved);
}

#[test]
fn clear_of_keeps_what_is_farther_than_the_radius() {
    let from = Position { x: 0, y: 0 };
    let coords = vec![
        Position { x: 0, y: 0 },
        Position { x: 30, y: 0 },
        Position { x: 31, y: 0 },
        Position { x: 18, y: 24 },
        Position { x: 18, y: 25 },
        Position { x: -40, y: -40 },
    ];
    assert_eq!(
        clear_of(&coords, from, 30),
        vec![Position { x: 31, y: 0 }, Position { x: 18, y: 25 }, Position { x: -40, y: -40 }]
    );
    assert_eq!(clear_of(&coords, from, -1), coords);
    assert!(clear_of(&coords, from, 1_000).is_empty());
    assert!(clear_of(&Vec::new(), from, 30).is_empty());
}

#[test]
fn population_spawn_uses_the_shuffled_coordinates_of_the_zone() {
    let grid = ZoneGrid::standard();
    let zone = Zone { row: 1, col: -1 };
    let mut pop = Population::new();
    for _ in 0..230 {
        pop.insert(rock(1, Rock::Stone));
    }
    let coords = zone.rand_coordinates(&grid);
    let plan = pop.spawn(&grid, zone);
    assert_eq!(plan.len(), 230);
    for (k, request) in plan.iter().enumerate() {
        assert_eq!(request.seed, rock(1, Rock::Stone));
        assert_eq!(request.position, coords[k % 225]);
    }
}

fn trials_with_hits(groups: &[&[usize]]) -> Vec<u32> {
    let mut trials = vec![5u32; groups.len() * 15];
    for (i, hits) in groups.iter().enumerate() {
        for &j in hits.iter() {
            trials[i * 15 + j] = 0;
        }
    }
    trials
}

#[test]
fn the_size_class_counts_the_hits_of_its_own_fifteen_trials() {
    let trials = trials_with_hits(&[&[], &[0], &[3, 14], &[0, 1, 2, 3, 4, 5, 6, 7, 8, 9, 10, 11, 12, 13, 14]]);
    assert_eq!(size_class(&trials, 0), 0);
    assert_eq!(size_class(&trials, 1), 1);
    assert_eq!(size_class(&trials, 2), 2);
    assert_eq!(size_class(&trials, 3), 15);
}

#[test]
fn only_draws_below_the_mark_are_hits() {
    let mut trials = vec![1u32; 15];
    assert_eq!(size_class(&trials, 0), 0);
    trials[7] = 0;
    assert_eq!(size_class(&trials, 0), 1);
    trials[7] = 9;
    assert_eq!(size_class(&trials, 0), 0);
}

#[test]
fn an_object_takes_its_material_from_its_roll_and_its_bulk_from_its_trials() {
    let rolls = vec![0, 299, 300, 999];
    let trials = trials_with_hits(&[&[], &[1], &[2, 3], &[4, 5, 6]]);
    assert_eq!(object_at(&rolls, &trials, 0), rock(1, Rock::Ice));
    assert_eq!(object_at(&rolls, &trials, 1), rock(4, Rock::Ice));
    assert_eq!(object_at(&rolls, &trials, 2), rock(9, Rock::Metal));
    assert_eq!(object_at(&rolls, &trials, 3), rock(16, Rock::Stone));
}

#[test]
fn draws_are_counted_per_seed_in_the_order_of_the_rolls() {
    let rolls = vec![500, 0, 500, 350, 0, 500];
    let trials = trials_with_hits(&[&[], &[0], &[], &[1, 2], &[9], &[14]]);
    let pop = Population::from_draws(&rolls, &trials);
    assert_eq!(pop.size(), 6);
    assert_eq!(
        pop.tallies().clone(),
        vec![
            Tally { seed: rock(1, Rock::Stone), count: 2 },
            Tally { seed: rock(4, Rock::Ice), count: 2 },
            Tally { seed: rock(9, Rock::Metal), count: 1 },
            Tally { seed: rock(4, Rock::Stone), count: 1 },
        ]
    );
}

#[test]
fn no_draws_make_an_empty_population() {
    let pop = Population::from_draws(&Vec::new(), &Vec::new());
    assert_eq!(pop.size(), 0);
    assert!(pop.tallies().is_empty());
}

#[test]
fn neighbouring_objects_do_not_share_their_trials() {
    // with lanes walked once, the size classes of a zone vary
    let mut classes: Vec<u8> = Vec::new();
    for row in 0..4 {
        for col in 0..4 {
            let pop = Population::generate(Zone { row, col });
            for tally in pop.tallies().iter() {
                let Seed::Rock(found) = tally.seed;
                if !classes.contains(&found.bulk) {
                    classes.push(found.bulk);
                }
            }
        }
    }
    assert!(classes.contains(&1));
    assert!(classes.contains(&4));
    assert!(classes.contains(&9));
    assert!(classes.contains(&16));
}
