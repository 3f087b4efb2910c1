use rand::rngs::StdRng;
use rand::SeedableRng;

use resource_collection_tui::generation::{DEPOSITS_PER_KIND, MAX_DEPOSIT, MIN_DEPOSIT};
use resource_collection_tui::model::{
    process_messages, Message, Position, ResourceKind, RobotKind, RobotState, Tile, WorldMap,
    WorldState,
};

fn empty_map(width: usize, height: usize) -> WorldMap {
    WorldMap {
        width,
        height,
        tiles: vec![Tile::Empty; width * height],
        base: Position { x: (width / 2) as i32, y: (height / 2) as i32 },
    }
}

fn pos(x: i32, y: i32) -> Position {
    Position { x, y }
}

#[test]
fn manhattan_distance_adds_axis_gaps() {
    assert_eq!(pos(1, 2).manhattan_distance(pos(4, -2)), 7);
    assert_eq!(pos(4, -2).manhattan_distance(pos(1, 2)), 7);
    assert_eq!(pos(-3, 5).manhattan_distance(pos(-3, 5)), 0);
}

#[test]
fn idx_is_row_major() {
    let map = empty_map(5, 4);
    assert_eq!(map.idx(pos(2, 1)), 7);
    assert_eq!(map.idx(pos(4, 3)), 19);
}

#[test]
fn tile_reads_back_what_was_written() {
    let mut map = empty_map(5, 4);
    map.set_tile(pos(3, 2), Tile::Obstacle);
    assert_eq!(map.tile_at(pos(3, 2)), Some(&Tile::Obstacle));
    assert_eq!(map.tile_at(pos(2, 3)), Some(&Tile::Empty));
    assert_eq!(map.tile_at(pos(5, 0)), None);
    assert_eq!(map.tile_at(pos(0, -1)), None);
}

#[test]
fn off_map_write_is_ignored() {
    let mut map = empty_map(3, 3);
    let before = map.tiles.clone();
    map.set_tile(pos(3, 1), Tile::Obstacle);
    map.set_tile(pos(-1, 1), Tile::Obstacle);
    assert_eq!(map.tiles, before);
}

#[test]
fn passable_excludes_obstacles_and_off_map() {
    let mut map = empty_map(3, 3);
    map.set_tile(pos(0, 0), Tile::Obstacle);
    map.set_tile(pos(1, 0), Tile::Resource { kind: ResourceKind::Energy, amount: 3 });
    assert!(!map.is_passable(pos(0, 0)));
    assert!(map.is_passable(pos(1, 0)));
    assert!(map.is_passable(pos(1, 1)));
    assert!(!map.is_passable(pos(3, 0)));
    assert!(map.in_bounds(pos(2, 2)));
    assert!(!map.in_bounds(pos(2, 3)));
}

#[test]
fn new_world_puts_every_robot_at_base() {
    let map = empty_map(7, 5);
    let base = map.base;
    let world = WorldState::new(map, 2, 3);
    assert_eq!(world.robots.len(), 5);
    for (i, robot) in world.robots.iter().enumerate() {
        let kind = if i < 2 { RobotKind::Scout } else { RobotKind::Collector };
        assert_eq!(*robot, RobotState { id: i, kind, pos: base });
    }
    assert_eq!(world.total_energy, 0);
    assert_eq!(world.total_crystals, 0);
    assert_eq!(world.known_resource_count(), 0);
}

#[test]
fn apply_message_updates_each_field() {
    let mut world = WorldState::new(empty_map(5, 5), 1, 1);
    world.apply_message(Message::RobotMoved { id: 1, pos: pos(0, 4) });
    assert_eq!(world.robots[1].pos, pos(0, 4));
    assert_eq!(world.robots[0].pos, pos(2, 2));
    world.apply_message(Message::ObstacleFound(pos(1, 1)));
    assert!(world.known_obstacles.contains(pos(1, 1)));
    assert!(!world.known_obstacles.contains(pos(1, 2)));
    world.apply_message(Message::ResourceFound { pos: pos(3, 3), kind: ResourceKind::Crystal });
    world.apply_message(Message::ResourceFound { pos: pos(4, 0), kind: ResourceKind::Energy });
    assert_eq!(world.known_resource_count(), 2);
    world.apply_message(Message::ResourceDepleted(pos(3, 3)));
    assert_eq!(world.known_resource_count(), 1);
    assert_eq!(world.known_resources.positions(), vec![pos(4, 0)]);
    world.apply_message(Message::Deposited(ResourceKind::Energy));
    world.apply_message(Message::Deposited(ResourceKind::Crystal));
    world.apply_message(Message::Deposited(ResourceKind::Crystal));
    assert_eq!(world.total_energy, 1);
    assert_eq!(world.total_crystals, 2);
}

#[test]
fn can_apply_rejects_unknown_robot_and_full_counter() {
    let mut world = WorldState::new(empty_map(5, 5), 1, 1);
    assert!(world.can_apply(&Message::RobotMoved { id: 1, pos: pos(0, 0) }));
    assert!(!world.can_apply(&Message::RobotMoved { id: 2, pos: pos(0, 0) }));
    world.total_energy = u32::MAX;
    assert!(!world.can_apply(&Message::Deposited(ResourceKind::Energy)));
    assert!(world.can_apply(&Message::Deposited(ResourceKind::Crystal)));
}

#[test]
fn process_messages_applies_in_order() {
    let mut world = WorldState::new(empty_map(5, 5), 1, 0);
    process_messages(
        &mut world,
        vec![
            Message::ResourceFound { pos: pos(1, 1), kind: ResourceKind::Energy },
            Message::RobotMoved { id: 0, pos: pos(1, 2) },
            Message::ResourceDepleted(pos(1, 1)),
            Message::RobotMoved { id: 0, pos: pos(1, 3) },
            Message::Deposited(ResourceKind::Energy),
        ],
    );
    assert_eq!(world.robots[0].pos, pos(1, 3));
    assert_eq!(world.known_resource_count(), 0);
    assert_eq!(world.total_energy, 1);
}

#[test]
fn totals_never_decrease_over_messages() {
    let mut world = WorldState::new(empty_map(5, 5), 1, 1);
    let mut last = (0, 0);
    for message in [
        Message::Deposited(ResourceKind::Energy),
        Message::ObstacleFound(pos(0, 0)),
        Message::Deposited(ResourceKind::Crystal),
        Message::RobotMoved { id: 0, pos: pos(1, 1) },
        Message::Deposited(ResourceKind::Energy),
    ] {
        world.apply_message(message);
        assert!(world.total_energy >= last.0 && world.total_crystals >= last.1);
        last = (world.total_energy, world.total_crystals);
    }
    assert_eq!(last, (2, 1));
}

#[test]
fn glyph_shows_last_robot_then_tile() {
    let mut map = empty_map(5, 5);
    map.set_tile(map.base, Tile::Base);
    map.set_tile(pos(0, 0), Tile::Obstacle);
    map.set_tile(pos(1, 0), Tile::Resource { kind: ResourceKind::Energy, amount: 9 });
    map.set_tile(pos(2, 0), Tile::Resource { kind: ResourceKind::Crystal, amount: 9 });
    let mut world = WorldState::new(map, 1, 1);
    assert_eq!(world.glyph_at(pos(2, 2)), 'o');
    world.apply_message(Message::RobotMoved { id: 1, pos: pos(4, 4) });
    assert_eq!(world.glyph_at(pos(2, 2)), 'x');
    assert_eq!(world.glyph_at(pos(4, 4)), 'o');
    world.apply_message(Message::RobotMoved { id: 0, pos: pos(3, 3) });
    assert_eq!(world.glyph_at(pos(2, 2)), '#');
    assert_eq!(world.glyph_at(pos(0, 0)), '0');
    assert_eq!(world.glyph_at(pos(1, 0)), 'E');
    assert_eq!(world.glyph_at(pos(2, 0)), 'C');
    assert_eq!(world.glyph_at(pos(3, 0)), '.');
    assert_eq!(world.glyph_at(pos(9, 9)), '.');
}

#[test]
fn deposits_go_only_on_empty_cells_off_the_base() {
    let mut map = empty_map(5, 5);
    map.set_tile(pos(2, 2), Tile::Base);
    map.set_tile(pos(0, 0), Tile::Obstacle);
    map.set_tile(pos(1, 0), Tile::Resource { kind: ResourceKind::Energy, amount: 60 });
    assert!(map.accepts_deposit(pos(3, 4)));
    assert!(!map.accepts_deposit(pos(2, 2)));
    assert!(!map.accepts_deposit(pos(0, 0)));
    assert!(!map.accepts_deposit(pos(1, 0)));
    assert!(!map.accepts_deposit(pos(5, 0)));
    assert!(!map.accepts_deposit(pos(-1, 3)));
}

#[test]
fn place_resources_with_zero_count_changes_nothing() {
    let mut map = empty_map(4, 3);
    let before = map.tiles.clone();
    let mut rng = StdRng::seed_from_u64(11);
    map.place_resources(ResourceKind::Energy, 0, &mut rng);
    assert_eq!(map.tiles, before);
}

#[test]
fn place_resources_from_tries_draws_in_order() {
    let mut map = empty_map(3, 3);
    let draws = vec![(1, 1, 60), (0, 0, 70), (0, 0, 80), (5, 5, 90), (2, 2, 100), (2, 0, 120)];
    let used = map.place_resources_from(ResourceKind::Energy, 2, &draws);
    assert_eq!(used, 5);
    assert_eq!(map.tile_at(pos(0, 0)), Some(&Tile::Resource { kind: ResourceKind::Energy, amount: 70 }));
    assert_eq!(map.tile_at(pos(2, 2)), Some(&Tile::Resource { kind: ResourceKind::Energy, amount: 100 }));
    assert_eq!(map.tile_at(pos(2, 0)), Some(&Tile::Empty));
    assert_eq!(map.tile_at(pos(1, 1)), Some(&Tile::Empty));
}

#[test]
fn place_resources_from_gives_up_after_its_budget() {
    let mut map = empty_map(3, 3);
    let draws = vec![(1, 1, 60); 250];
    let used = map.place_resources_from(ResourceKind::Crystal, 1, &draws);
    assert_eq!(used, 200);
    assert!(map.tiles.iter().all(|t| *t == Tile::Empty));
}

#[test]
fn place_resources_from_stops_when_draws_run_out() {
    let mut map = empty_map(3, 3);
    let used = map.place_resources_from(ResourceKind::Crystal, 2, &vec![(0, 1, 55)]);
    assert_eq!(used, 1);
    assert_eq!(map.tile_at(pos(0, 1)), Some(&Tile::Resource { kind: ResourceKind::Crystal, amount: 55 }));
}

#[test]
fn generate_from_places_sixteen_of_each_kind() {
    let mask = vec![false; 9 * 7];
    let mut energy = Vec::new();
    let mut crystal = Vec::new();
    for i in 0..16 {
        energy.push((i % 9, i / 9, 50 + i as u16));
        crystal.push((i % 9, 5 + i / 9, 200 - i as u16));
    }
    energy.insert(3, (4, 3, 120));
    crystal.insert(0, (0, 0, 150));
    let map = WorldMap::generate_from(9, 7, &mask, &energy, &crystal);
    assert_eq!(map.tile_at(pos(4, 3)), Some(&Tile::Base));
    let mut energy_count = 0;
    let mut crystal_count = 0;
    for tile in &map.tiles {
        match tile {
            Tile::Resource { kind: ResourceKind::Energy, .. } => energy_count += 1,
            Tile::Resource { kind: ResourceKind::Crystal, .. } => crystal_count += 1,
            _ => {}
        }
    }
    assert_eq!(energy_count, 16);
    assert_eq!(crystal_count, 16);
    assert_eq!(map.tile_at(pos(0, 0)), Some(&Tile::Resource { kind: ResourceKind::Energy, amount: 50 }));
    assert_eq!(map.tile_at(pos(6, 1)), Some(&Tile::Resource { kind: ResourceKind::Energy, amount: 65 }));
    assert_eq!(map.tile_at(pos(0, 5)), Some(&Tile::Resource { kind: ResourceKind::Crystal, amount: 200 }));
    assert_eq!(map.tile_at(pos(6, 6)), Some(&Tile::Resource { kind: ResourceKind::Crystal, amount: 185 }));
}

#[test]
fn place_resources_draws_varied_positions_and_amounts() {
    let mut map = empty_map(5, 5);
    map.set_tile(pos(0, 0), Tile::Obstacle);
    let mut rng = StdRng::seed_from_u64(7);
    map.place_resources(ResourceKind::Crystal, 4, &mut rng);
    let mut amounts = Vec::new();
    for (i, tile) in map.tiles.iter().enumerate() {
        if let Tile::Resource { kind, amount } = tile {
            assert_eq!(*kind, ResourceKind::Crystal);
            assert!((MIN_DEPOSIT..=MAX_DEPOSIT).contains(amount));
            assert_ne!(i, 12, "no deposit on the base");
            amounts.push(*amount);
        }
    }
    assert_eq!(map.tiles[0], Tile::Obstacle);
    assert_eq!(amounts.len(), 4);
    assert!(amounts.iter().any(|a| *a != MIN_DEPOSIT));
    assert!(amounts.iter().any(|a| *a != MAX_DEPOSIT));
}

#[test]
fn generated_map_keeps_base_clear() {
    let mask = vec![true; 9 * 7];
    let mut rng = StdRng::seed_from_u64(3);
    let map = WorldMap::generate(9, 7, &mask, &mut rng);
    assert_eq!(map.base, pos(4, 3));
    assert_eq!(map.tile_at(pos(4, 3)), Some(&Tile::Base));
    for p in [pos(5, 3), pos(3, 3), pos(4, 2), pos(4, 4)] {
        assert_ne!(map.tile_at(p), Some(&Tile::Obstacle));
    }
    assert_eq!(map.tile_at(pos(0, 0)), Some(&Tile::Obstacle));
    let resources = map.tiles.iter().filter(|t| matches!(t, Tile::Resource { .. })).count();
    assert!(resources <= 2 * DEPOSITS_PER_KIND);
    assert!(resources <= 4);
}

#[test]
fn two_batches_equal_one_combined_batch() {
    let mut map = empty_map(5, 5);
    map.set_tile(pos(1, 1), Tile::Resource { kind: ResourceKind::Crystal, amount: 2 });
    let first = vec![
        Message::ResourceFound { pos: pos(1, 1), kind: ResourceKind::Crystal },
        Message::Harvested { pos: pos(1, 1), kind: ResourceKind::Crystal },
        Message::Deposited(ResourceKind::Crystal),
    ];
    let second = vec![
        Message::RobotMoved { id: 1, pos: pos(1, 1) },
        Message::Harvested { pos: pos(1, 1), kind: ResourceKind::Crystal },
        Message::ResourceDepleted(pos(1, 1)),
        Message::Deposited(ResourceKind::Crystal),
        Message::Deposited(ResourceKind::Energy),
    ];
    let mut split = WorldState::new(map.clone(), 1, 1);
    process_messages(&mut split, first.clone());
    process_messages(&mut split, second.clone());
    let mut combined = WorldState::new(map, 1, 1);
    let mut all = first;
    all.extend(second);
    process_messages(&mut combined, all);
    assert_eq!(split.map.tiles, combined.map.tiles);
    assert_eq!(split.robots, combined.robots);
    assert_eq!(split.known_resource_count(), combined.known_resource_count());
    assert_eq!(split.total_energy, 1);
    assert_eq!(split.total_crystals, 2);
    assert_eq!(combined.total_energy, 1);
    assert_eq!(combined.total_crystals, 2);
    assert_eq!(combined.map.tile_at(pos(1, 1)), Some(&Tile::Empty));
}

#[test]
fn harvest_message_takes_one_unit() {
    let mut map = empty_map(3, 3);
    map.set_tile(pos(0, 0), Tile::Resource { kind: ResourceKind::Energy, amount: 3 });
    let mut world = WorldState::new(map, 0, 1);
    world.apply_message(Message::Harvested { pos: pos(0, 0), kind: ResourceKind::Energy });
    assert_eq!(world.map.tile_at(pos(0, 0)), Some(&Tile::Resource { kind: ResourceKind::Energy, amount: 2 }));
    world.apply_message(Message::Harvested { pos: pos(2, 2), kind: ResourceKind::Energy });
    assert_eq!(world.map.tile_at(pos(2, 2)), Some(&Tile::Empty));
    world.apply_message(Message::Harvested { pos: pos(7, 7), kind: ResourceKind::Energy });
    assert_eq!(world.map.tiles.len(), 9);
}
