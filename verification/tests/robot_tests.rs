use std::collections::VecDeque;

use resource_collection_tui::model::{Message, Position, ResourceKind, Tile, WorldMap, WorldState};
use resource_collection_tui::robots::{
    collector_step, nearest_known_resource, scout_step, CollectorMemory, ScoutMemory,
};

fn pos(x: i32, y: i32) -> Position {
    Position { x, y }
}

fn world_with(rows: &[&str], base: Position, scouts: usize, collectors: usize) -> WorldState {
    let height = rows.len();
    let width = rows[0].len();
    let mut tiles = Vec::new();
    for row in rows {
        for ch in row.chars() {
            tiles.push(match ch {
                '#' => Tile::Obstacle,
                'E' => Tile::Resource { kind: ResourceKind::Energy, amount: 2 },
                'C' => Tile::Resource { kind: ResourceKind::Crystal, amount: 1 },
                'B' => Tile::Base,
                _ => Tile::Empty,
            });
        }
    }
    WorldState::new(WorldMap { width, height, tiles, base }, scouts, collectors)
}

#[test]
fn scout_step_reports_sightings_then_move() {
    let world = world_with(&["#....", ".B...", "...E."], pos(1, 1), 1, 0);
    let mut memory = ScoutMemory::new();
    let messages = scout_step(&world, 0, &mut memory);
    assert_eq!(messages[0], Message::ObstacleFound(pos(0, 0)));
    assert_eq!(messages.len(), 2);
    match messages[1] {
        Message::RobotMoved { id, pos: next } => {
            assert_eq!(id, 0);
            assert_eq!(next.manhattan_distance(pos(1, 1)), 1);
            assert!(world.map.is_passable(next));
            assert_eq!(memory.recent_positions, VecDeque::from([pos(1, 1), next]));
        },
        other => panic!("unexpected message {other:?}"),
    }
    assert!(memory.known_tiles.contains(pos(2, 2)));
    assert!(!memory.known_tiles.contains(pos(3, 2)));
    assert!(memory.known_obstacles.contains(pos(0, 0)));
}

#[test]
fn nearest_known_resource_picks_closest() {
    let mut world = world_with(&["E...C", ".....", "....."], pos(2, 1), 0, 1);
    assert_eq!(nearest_known_resource(&world, pos(3, 1)), None);
    world.apply_message(Message::ResourceFound { pos: pos(0, 0), kind: ResourceKind::Energy });
    world.apply_message(Message::ResourceFound { pos: pos(4, 0), kind: ResourceKind::Crystal });
    world.apply_message(Message::ResourceFound { pos: pos(2, 2), kind: ResourceKind::Crystal });
    assert_eq!(nearest_known_resource(&world, pos(3, 1)), Some(pos(4, 0)));
    assert_eq!(nearest_known_resource(&world, pos(0, 1)), Some(pos(0, 0)));
}

#[test]
fn collector_walks_towards_target_then_harvests() {
    let mut world = world_with(&["B.E"], pos(0, 0), 0, 1);
    world.apply_message(Message::ResourceFound { pos: pos(2, 0), kind: ResourceKind::Energy });
    let mut memory = CollectorMemory::new();
    let moved = collector_step(&world, 0, &mut memory);
    assert_eq!(moved, vec![Message::RobotMoved { id: 0, pos: pos(1, 0) }]);
    world.apply_message(moved[0]);
    let moved = collector_step(&world, 0, &mut memory);
    assert_eq!(moved, vec![Message::RobotMoved { id: 0, pos: pos(2, 0) }]);
    world.apply_message(moved[0]);
    let harvest = collector_step(&world, 0, &mut memory);
    assert_eq!(harvest, vec![Message::Harvested { pos: pos(2, 0), kind: ResourceKind::Energy }]);
    assert_eq!(memory.carrying, Some(ResourceKind::Energy));
    assert_eq!(world.map.tile_at(pos(2, 0)), Some(&Tile::Resource { kind: ResourceKind::Energy, amount: 2 }));
    world.apply_message(harvest[0]);
    assert_eq!(world.map.tile_at(pos(2, 0)), Some(&Tile::Resource { kind: ResourceKind::Energy, amount: 1 }));
}

#[test]
fn collector_depletes_last_unit() {
    let mut world = world_with(&["B.C"], pos(0, 0), 0, 1);
    world.apply_message(Message::ResourceFound { pos: pos(2, 0), kind: ResourceKind::Crystal });
    world.apply_message(Message::RobotMoved { id: 0, pos: pos(2, 0) });
    let mut memory = CollectorMemory::new();
    let messages = collector_step(&world, 0, &mut memory);
    assert_eq!(messages, vec![Message::Harvested { pos: pos(2, 0), kind: ResourceKind::Crystal }, Message::ResourceDepleted(pos(2, 0))]);
    assert_eq!(memory.carrying, Some(ResourceKind::Crystal));
    for message in messages {
        world.apply_message(message);
    }
    assert_eq!(world.map.tile_at(pos(2, 0)), Some(&Tile::Empty));
    assert_eq!(world.known_resource_count(), 0);
}

#[test]
fn collector_carries_home_and_deposits() {
    let mut world = world_with(&["B.."], pos(0, 0), 0, 1);
    world.apply_message(Message::RobotMoved { id: 0, pos: pos(2, 0) });
    let mut memory = CollectorMemory::new();
    memory.carrying = Some(ResourceKind::Crystal);
    let first = collector_step(&world, 0, &mut memory);
    assert_eq!(first, vec![Message::RobotMoved { id: 0, pos: pos(1, 0) }]);
    assert_eq!(memory.carrying, Some(ResourceKind::Crystal));
    world.apply_message(first[0]);
    let second = collector_step(&world, 0, &mut memory);
    assert_eq!(
        second,
        vec![
            Message::RobotMoved { id: 0, pos: pos(0, 0) },
            Message::Deposited(ResourceKind::Crystal),
        ]
    );
    assert_eq!(memory.carrying, None);
    assert_eq!(memory.recent_positions, VecDeque::from([pos(2, 0), pos(1, 0), pos(0, 0)]));
    for message in second {
        world.apply_message(message);
    }
    assert_eq!(world.total_crystals, 1);
}

#[test]
fn collector_drifts_without_target() {
    let mut world = world_with(&["B.E", "#.."], pos(0, 0), 0, 1);
    let mut memory = CollectorMemory::new();
    let messages = collector_step(&world, 0, &mut memory);
    assert_eq!(messages, vec![Message::RobotMoved { id: 0, pos: pos(1, 0) }]);
    assert_eq!(memory.carrying, None);
    assert_eq!(memory.recent_positions, VecDeque::from([pos(0, 0), pos(1, 0)]));
    world.apply_message(messages[0]);
    let next = collector_step(&world, 0, &mut memory);
    assert_eq!(next, vec![Message::RobotMoved { id: 0, pos: pos(2, 0) }]);
}

#[test]
fn collector_deposits_what_it_harvested() {
    let mut world = world_with(&["B.E.C"], pos(0, 0), 0, 1);
    world.apply_message(Message::ResourceFound { pos: pos(2, 0), kind: ResourceKind::Energy });
    world.apply_message(Message::ResourceFound { pos: pos(4, 0), kind: ResourceKind::Crystal });
    let mut memory = CollectorMemory::new();
    let mut harvested = Vec::new();
    let mut deposited = Vec::new();
    for _ in 0..40 {
        let messages = collector_step(&world, 0, &mut memory);
        for message in messages {
            match message {
                Message::Harvested { kind, .. } => harvested.push(kind),
                Message::Deposited(kind) => deposited.push(kind),
                _ => {}
            }
            world.apply_message(message);
        }
        assert!(deposited.len() <= harvested.len());
        assert!(harvested.len() <= deposited.len() + 1);
        assert_eq!(harvested[..deposited.len()], deposited[..]);
        assert_eq!(memory.carrying.is_some(), harvested.len() == deposited.len() + 1);
    }
    assert_eq!(harvested, vec![ResourceKind::Energy, ResourceKind::Energy, ResourceKind::Crystal]);
    assert_eq!(deposited, harvested);
    assert_eq!(world.total_energy, 2);
    assert_eq!(world.total_crystals, 1);
}

#[test]
fn scout_reports_each_find_once() {
    let mut world = world_with(&["#.E..", ".....", "..#.C"], pos(2, 1), 1, 0);
    let mut memory = ScoutMemory::new();
    let mut finds = Vec::new();
    for _ in 0..12 {
        let messages = scout_step(&world, 0, &mut memory);
        for message in messages {
            match message {
                Message::ObstacleFound(p) => finds.push((0, p)),
                Message::ResourceFound { pos, .. } => finds.push((1, pos)),
                _ => {}
            }
            world.apply_message(message);
        }
    }
    let mut unique = finds.clone();
    unique.sort_by_key(|(k, p)| (*k, p.x, p.y));
    unique.dedup();
    assert_eq!(unique.len(), finds.len());
    assert_eq!(finds.len(), 4);
}
