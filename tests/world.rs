use bitter::events::WorldEvent;
use bitter::keys::KeyAllocator;
use bitter::movement::{
    can_move_in_dir, coords_after_move, direction_from_index, Direction, GRID_HEIGHT, GRID_WIDTH,
};
use bitter::random::{RandomSource, ScriptedRandom, ThreadRandom};
use bitter::world::{Role, World};

fn inside(c: (u8, u8)) -> bool {
    c.0 >= 1 && c.0 <= GRID_WIDTH - 2 && c.1 >= 1 && c.1 <= GRID_HEIGHT - 2
}

fn farm_cells(w: &World) -> Vec<(u8, u8)> {
    w.farms().iter().map(|f| w.coords_of(f.key).unwrap()).collect()
}

#[test]
fn moves_one_cell_and_stops_at_border() {
    assert_eq!(coords_after_move((3, 3), Direction::Up), (3, 2));
    assert_eq!(coords_after_move((3, 3), Direction::Down), (3, 4));
    assert_eq!(coords_after_move((3, 3), Direction::Left), (2, 3));
    assert_eq!(coords_after_move((3, 3), Direction::Right), (4, 3));
    assert_eq!(coords_after_move((1, 1), Direction::Up), (1, 1));
    assert_eq!(coords_after_move((1, 1), Direction::Left), (1, 1));
    assert_eq!(coords_after_move((6, 6), Direction::Down), (6, 6));
    assert_eq!(coords_after_move((6, 6), Direction::Right), (6, 6));
}

#[test]
fn can_move_only_off_the_border() {
    assert!(!can_move_in_dir((1, 1), Direction::Up));
    assert!(!can_move_in_dir((1, 1), Direction::Left));
    assert!(can_move_in_dir((1, 1), Direction::Down));
    assert!(can_move_in_dir((1, 1), Direction::Right));
    assert!(!can_move_in_dir((6, 6), Direction::Down));
    assert!(!can_move_in_dir((6, 6), Direction::Right));
}

#[test]
fn directions_are_numbered_in_order() {
    assert_eq!(direction_from_index(0), Direction::Up);
    assert_eq!(direction_from_index(1), Direction::Down);
    assert_eq!(direction_from_index(2), Direction::Left);
    assert_eq!(direction_from_index(3), Direction::Right);
}

#[test]
fn every_step_from_inside_stays_inside() {
    for x in 1..=6u8 {
        for y in 1..=6u8 {
            for i in 0..4usize {
                assert!(inside(coords_after_move((x, y), direction_from_index(i))));
            }
        }
    }
}

#[test]
fn new_world_has_one_villager_and_three_farms() {
    let w = World::new();
    assert_eq!(w.ticks(), 0);
    assert_eq!(w.villagers().len(), 1);
    assert_eq!(w.farms().len(), 3);
    assert_eq!(w.death_markers().len(), 0);
    let v = w.villagers()[0];
    assert_eq!(v.id, 1);
    assert_eq!(w.coords_of(v.key), Some((4, 4)));
    assert_eq!(w.satiation_of(v.key), Some(1));
    assert_eq!(farm_cells(&w), vec![(5, 4), (5, 5), (5, 6)]);
}

#[test]
fn quiet_ticks_then_one_cascade() {
    let mut w = World::new();
    let start = w.snapshot();
    let mut rng = ScriptedRandom::new(vec![0]);
    for _ in 0..19 {
        w.tick_with(&mut rng);
        assert_eq!(w.snapshot(), start);
    }
    assert_eq!(w.ticks(), 19);
    w.tick_with(&mut rng);
    assert_eq!(w.ticks(), 20);
    let v = w.villagers()[0];
    assert_eq!(w.farms().len(), 5);
    assert_eq!(farm_cells(&w), vec![(5, 5), (5, 6), (4, 6), (4, 5), (5, 3)]);
    assert_eq!(w.satiation_of(v.key), Some(2));
    assert_eq!(w.villager(1).unwrap().last_ate, 20);
    assert_eq!(w.coords_of(v.key), Some((4, 3)));
    assert_eq!(w.villager_id_at(4, 4), None);
    assert_eq!(w.add_villager_at(1, 1), 8);
}

#[test]
fn cascade_with_thread_random_moves_villager_by_one() {
    let mut w = World::new();
    for _ in 0..19 {
        w.tick();
    }
    assert_eq!(w.farms().len(), 3);
    w.tick();
    let v = w.villagers()[0];
    assert_eq!(w.farms().len(), 5);
    assert_eq!(w.satiation_of(v.key), Some(2));
    let (x, y) = w.coords_of(v.key).unwrap();
    let dist = (x as i32 - 4).abs() + (y as i32 - 4).abs();
    assert_eq!(dist, 1);
    assert_eq!(w.villager_id_at(4, 4), None);
}

#[test]
fn growth_waits_for_cooldown() {
    let mut w = World::new();
    let mut rng = ScriptedRandom::new(vec![0, 0, 0]);
    for _ in 0..3 {
        w.tick_with(&mut rng);
    }
    w.add_farm_at(2, 2);
    let farm = *w.farms().last().unwrap();
    assert_eq!(farm.last_grew, 3);
    for _ in 0..10 {
        w.tick_with(&mut rng);
    }
    assert_eq!(w.ticks(), 13);
    let out = w.handle_event(WorldEvent::FarmGrew(farm.key), &mut rng);
    assert!(out.is_empty());
    for _ in 0..15 {
        w.tick_with(&mut rng);
    }
    assert_eq!(w.ticks(), 28);
    let before = w.farms().len();
    let out = w.handle_event(WorldEvent::FarmGrew(farm.key), &mut rng);
    assert_eq!(out, vec![WorldEvent::FarmAdded((2, 1))]);
    for e in out {
        let more = w.handle_event(e, &mut rng);
        assert!(more.is_empty());
    }
    assert_eq!(w.farms().len(), before + 1);
    let cells = farm_cells(&w);
    assert!(cells.contains(&(2, 1)));
    let grown = w.farms().into_iter().find(|f| f.key == farm.key).unwrap();
    assert_eq!(grown.last_grew, 28);
}

#[test]
fn growth_skips_cells_that_hold_farms() {
    let mut w = World::new();
    let mut rng = ScriptedRandom::new(vec![0]);
    w.tick_with(&mut rng);
    w.add_farm_at(2, 2);
    w.add_farm_at(2, 3);
    for _ in 0..20 {
        w.tick_with(&mut rng);
    }
    assert_eq!(w.ticks(), 21);
    let k = w
        .farms()
        .iter()
        .map(|f| f.key)
        .find(|k| w.coords_of(*k) == Some((2, 2)))
        .unwrap();
    let mut pick = ScriptedRandom::new(vec![1]);
    let out = w.handle_event(WorldEvent::FarmGrew(k), &mut pick);
    assert_eq!(out, vec![WorldEvent::FarmAdded((1, 2))]);
}

#[test]
fn farm_added_on_a_farm_is_ignored() {
    let mut w = World::new();
    let mut rng = ThreadRandom;
    let before = w.snapshot();
    let out = w.handle_event(WorldEvent::FarmAdded((5, 5)), &mut rng);
    assert!(out.is_empty());
    assert_eq!(w.snapshot(), before);
}

#[test]
fn hunger_then_death_leaves_one_marker() {
    let mut w = World::new();
    let mut rng = ThreadRandom;
    let v = w.villagers()[0];
    let out = w.handle_event(WorldEvent::VillagerHungered(v.key), &mut rng);
    assert!(out.is_empty());
    assert_eq!(w.satiation_of(v.key), Some(0));
    let out = w.handle_event(WorldEvent::VillagerHungered(v.key), &mut rng);
    assert_eq!(out, vec![WorldEvent::VillagerDied(v.key)]);
    assert_eq!(w.satiation_of(v.key), Some(0));
    let out = w.handle_event(WorldEvent::VillagerDied(v.key), &mut rng);
    assert!(out.is_empty());
    assert_eq!(w.villagers().len(), 0);
    assert_eq!(w.villager(v.id), None);
    let markers = w.death_markers();
    assert_eq!(markers.len(), 1);
    assert_eq!(markers[0].id, v.id);
    assert_eq!(w.coords_of(markers[0].key), Some((4, 4)));
    assert_ne!(markers[0].key, v.key);
    assert_eq!(w.coords_of(v.key), None);
    assert_eq!(w.satiation_of(v.key), None);
    let after = w.snapshot();
    w.handle_event(WorldEvent::VillagerDied(v.key), &mut rng);
    assert_eq!(w.snapshot(), after);
}

#[test]
fn clearing_graves_keeps_villagers_and_farms() {
    let mut w = World::new();
    let mut rng = ThreadRandom;
    w.add_villager_at(2, 2);
    let v = w.villagers()[0];
    w.handle_event(WorldEvent::VillagerDied(v.key), &mut rng);
    assert_eq!(w.death_markers().len(), 1);
    let villagers = w.villagers();
    let farms = w.farms();
    let out = w.handle_event(WorldEvent::GravesCleared, &mut rng);
    assert!(out.is_empty());
    assert_eq!(w.death_markers().len(), 0);
    assert_eq!(w.villagers(), villagers);
    assert_eq!(w.farms(), farms);
}

#[test]
fn eating_raises_satiation_and_records_time() {
    let mut w = World::new();
    let mut rng = ThreadRandom;
    for _ in 0..5 {
        w.tick_with(&mut rng);
    }
    let v = w.villagers()[0];
    w.handle_event(WorldEvent::VillagerAte(v.key), &mut rng);
    assert_eq!(w.satiation_of(v.key), Some(2));
    assert_eq!(w.villager(v.id).unwrap().last_ate, 5);
}

#[test]
fn sated_villager_does_not_harvest() {
    let mut w = World::new();
    let mut rng = ThreadRandom;
    let v = w.villagers()[0];
    for _ in 0..4 {
        w.handle_event(WorldEvent::VillagerAte(v.key), &mut rng);
    }
    assert_eq!(w.satiation_of(v.key), Some(5));
    let out = w.handle_event(WorldEvent::VillagerHarvested(v.key), &mut rng);
    assert!(out.is_empty());
}

#[test]
fn hungry_villager_without_farms_goes_hungry() {
    let mut w = World::new();
    let mut rng = ThreadRandom;
    let v = w.villagers()[0];
    for f in w.farms() {
        w.handle_event(WorldEvent::FarmHarvested(f.key), &mut rng);
    }
    assert_eq!(w.farms().len(), 0);
    let out = w.handle_event(WorldEvent::VillagerHarvested(v.key), &mut rng);
    assert_eq!(out, vec![WorldEvent::VillagerHungered(v.key)]);
}

#[test]
fn hungry_villager_picks_a_farm() {
    let mut w = World::new();
    let mut rng = ScriptedRandom::new(vec![2]);
    let v = w.villagers()[0];
    let farms = w.farms();
    let out = w.handle_event(WorldEvent::VillagerHarvested(v.key), &mut rng);
    assert_eq!(
        out,
        vec![WorldEvent::FarmHarvested(farms[2].key), WorldEvent::VillagerAte(v.key)]
    );
}

#[test]
fn batches_fan_out_per_entity() {
    let mut w = World::new();
    let mut rng = ScriptedRandom::new(vec![3]);
    let v = w.villagers()[0];
    let farms = w.farms();
    let out = w.handle_event(WorldEvent::FarmsCultivated, &mut rng);
    let expected: Vec<WorldEvent> = farms.iter().map(|f| WorldEvent::FarmGrew(f.key)).collect();
    assert_eq!(out, expected);
    let out = w.handle_event(WorldEvent::VillagersFarmed, &mut rng);
    assert_eq!(out, vec![WorldEvent::VillagerHarvested(v.key)]);
    let out = w.handle_event(WorldEvent::VillagersMoved, &mut rng);
    assert_eq!(out, vec![WorldEvent::VillagerMoved(v.key, Direction::Right)]);
}

#[test]
fn long_run_keeps_invariants() {
    let mut w = World::new();
    w.add_villager_at(1, 1);
    w.add_villager_at(6, 6);
    for _ in 0..400 {
        w.tick();
        for v in w.villagers() {
            assert!(inside(w.coords_of(v.key).unwrap()));
            assert!(w.satiation_of(v.key).is_some());
        }
        let cells = farm_cells(&w);
        for i in 0..cells.len() {
            for j in 0..cells.len() {
                if i != j {
                    assert_ne!(cells[i], cells[j]);
                }
            }
        }
    }
    assert_eq!(w.ticks(), 400);
}

#[test]
fn lookups_by_cell_and_id() {
    let mut w = World::new();
    let id = w.add_villager_at(2, 3);
    assert_eq!(id, 5);
    assert_eq!(w.add_farm_at(1, 1), 6);
    assert_eq!(w.villager_id_at(2, 3), Some(5));
    assert_eq!(w.villager_id_at(4, 4), Some(1));
    assert_eq!(w.villager_id_at(5, 4), None);
    let v = w.villager(5).unwrap();
    assert_eq!(v.id, 5);
    assert_eq!(w.coords_of(v.key), Some((2, 3)));
    assert_eq!(w.villager(2), None);
    assert_eq!(w.villager(42), None);
    assert!(w.can_add());
}

#[test]
fn entity_roles_in_snapshot() {
    let w = World::new();
    let s = w.snapshot();
    assert_eq!(s.len(), 4);
    assert_eq!(s[0].role, Role::Villager { last_ate: 0, satiation: 1 });
    assert_eq!(s[1].role, Role::Farm { last_grew: 0 });
}

#[test]
fn thread_random_stays_below_bound() {
    let mut rng = ThreadRandom;
    for n in 1..50usize {
        assert!(rng.index_below(n) < n);
    }
    assert_eq!(rng.index_below(1), 0);
}

#[test]
fn scripted_random_replays_and_wraps() {
    let mut rng = ScriptedRandom::new(vec![7, 1]);
    assert_eq!(rng.index_below(4), 3);
    assert_eq!(rng.index_below(4), 1);
    assert_eq!(rng.index_below(5), 2);
    let mut empty = ScriptedRandom::new(vec![]);
    assert_eq!(empty.index_below(9), 0);
}

#[test]
fn key_allocator_hands_out_distinct_keys() {
    let mut a = KeyAllocator::new();
    let k1 = a.allocate();
    let k2 = a.allocate();
    assert_ne!(k1, k2);
    assert_eq!(a.len(), 2);
    a.release(k1);
    assert_eq!(a.len(), 1);
    let k3 = a.allocate();
    assert_ne!(k3, k1);
    assert_ne!(k3, k2);
    assert!(!a.is_full());
}
