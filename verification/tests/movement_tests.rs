use std::collections::VecDeque;

use resource_collection_tui::model::{Message, Position, ResourceKind, Tile, WorldMap, WorldState};
use resource_collection_tui::positions::PositionSet;
use resource_collection_tui::search::bfs_next_step_towards;
use resource_collection_tui::simulation::{
    choose_non_repeating_position, discover_surroundings, is_frontier_tile, neighbors,
    push_recent_position, step_towards_avoiding_recent,
};

fn pos(x: i32, y: i32) -> Position {
    Position { x, y }
}

/// A world drawn from rows of characters: `#` obstacle, `E`/`C` resources, `.` empty.
fn world_from(rows: &[&str]) -> WorldState {
    let height = rows.len();
    let width = rows[0].len();
    let mut tiles = Vec::new();
    for row in rows {
        for ch in row.chars() {
            tiles.push(match ch {
                '#' => Tile::Obstacle,
                'E' => Tile::Resource { kind: ResourceKind::Energy, amount: 5 },
                'C' => Tile::Resource { kind: ResourceKind::Crystal, amount: 1 },
                'B' => Tile::Base,
                _ => Tile::Empty,
            });
        }
    }
    let map = WorldMap { width, height, tiles, base: pos(0, 0) };
    WorldState::new(map, 1, 1)
}

#[test]
fn neighbors_lists_right_left_down_up() {
    assert_eq!(neighbors(pos(3, -2)), [pos(4, -2), pos(2, -2), pos(3, -1), pos(3, -3)]);
}

#[test]
fn choose_falls_back_to_first_candidate() {
    let recent = VecDeque::from([pos(1, 0), pos(2, 0)]);
    assert_eq!(choose_non_repeating_position(&[pos(2, 0), pos(1, 0)], &recent), Some(pos(2, 0)));
    assert_eq!(choose_non_repeating_position(&[], &recent), None);
    assert_eq!(choose_non_repeating_position(&[pos(5, 5)], &VecDeque::new()), Some(pos(5, 5)));
}

#[test]
fn trail_skips_repeat_and_trims_oldest() {
    let mut recent = VecDeque::new();
    push_recent_position(&mut recent, pos(1, 0), 3);
    push_recent_position(&mut recent, pos(1, 0), 3);
    assert_eq!(recent, VecDeque::from([pos(1, 0)]));
    push_recent_position(&mut recent, pos(2, 0), 3);
    push_recent_position(&mut recent, pos(1, 0), 3);
    push_recent_position(&mut recent, pos(3, 0), 3);
    assert_eq!(recent, VecDeque::from([pos(2, 0), pos(1, 0), pos(3, 0)]));
    push_recent_position(&mut recent, pos(4, 0), 0);
    assert!(recent.is_empty());
}

#[test]
fn recording_twice_equals_recording_once() {
    let mut once = VecDeque::from([pos(0, 0), pos(1, 0)]);
    let mut twice = once.clone();
    push_recent_position(&mut once, pos(2, 0), 2);
    push_recent_position(&mut twice, pos(2, 0), 2);
    push_recent_position(&mut twice, pos(2, 0), 2);
    assert_eq!(once, twice);
    assert_eq!(once, VecDeque::from([pos(1, 0), pos(2, 0)]));
}

#[test]
fn discovery_reports_each_find_once() {
    let world = world_from(&["#E.", ".C.", "..#"]);
    let mut obstacles = PositionSet::new();
    let mut resources = PositionSet::new();
    let first = discover_surroundings(&world, pos(1, 1), &mut obstacles, &mut resources);
    assert_eq!(
        first,
        vec![
            Message::ObstacleFound(pos(0, 0)),
            Message::ResourceFound { pos: pos(1, 0), kind: ResourceKind::Energy },
            Message::ResourceFound { pos: pos(1, 1), kind: ResourceKind::Crystal },
            Message::ObstacleFound(pos(2, 2)),
        ]
    );
    assert!(obstacles.contains(pos(2, 2)));
    assert!(resources.contains(pos(1, 0)));
    let second = discover_surroundings(&world, pos(1, 1), &mut obstacles, &mut resources);
    assert!(second.is_empty());
    let edge = discover_surroundings(&world, pos(0, 0), &mut obstacles, &mut resources);
    assert!(edge.is_empty());
}

#[test]
fn frontier_needs_unseen_neighbor() {
    let world = world_from(&["...", ".#.", "..."]);
    let mut known = PositionSet::new();
    assert!(is_frontier_tile(&world, &known, pos(0, 0)));
    assert!(!is_frontier_tile(&world, &known, pos(1, 1)));
    assert!(!is_frontier_tile(&world, &known, pos(3, 0)));
    for p in [pos(1, 0), pos(0, 1)] {
        known.insert(p);
    }
    assert!(!is_frontier_tile(&world, &known, pos(0, 0)));
    assert!(is_frontier_tile(&world, &known, pos(1, 0)));
}

#[test]
fn step_prefers_horizontal_move() {
    let world = world_from(&["....", "....", "...."]);
    let recent = VecDeque::new();
    assert_eq!(step_towards_avoiding_recent(&world, pos(0, 0), pos(3, 2), &recent), pos(1, 0));
    assert_eq!(step_towards_avoiding_recent(&world, pos(2, 0), pos(2, 2), &recent), pos(2, 1));
}

#[test]
fn step_avoids_recent_positions() {
    let world = world_from(&["....", "....", "...."]);
    let recent = VecDeque::from([pos(1, 0)]);
    assert_eq!(step_towards_avoiding_recent(&world, pos(0, 0), pos(3, 2), &recent), pos(0, 1));
    let all = VecDeque::from([pos(1, 0), pos(0, 1), pos(1, 1)]);
    assert_eq!(step_towards_avoiding_recent(&world, pos(0, 0), pos(3, 2), &all), pos(1, 0));
}

#[test]
fn step_detours_around_obstacles_or_stays() {
    let world = world_from(&[".#.", "##.", "..."]);
    let recent = VecDeque::new();
    assert_eq!(step_towards_avoiding_recent(&world, pos(0, 0), pos(2, 2), &recent), pos(0, 0));
    let open = world_from(&["#..", "...", "..."]);
    assert_eq!(step_towards_avoiding_recent(&open, pos(1, 0), pos(0, 0), &recent), pos(2, 0));
    let back = VecDeque::from([pos(2, 0)]);
    assert_eq!(step_towards_avoiding_recent(&open, pos(1, 0), pos(0, 0), &back), pos(1, 1));
}

#[test]
fn bfs_finds_first_step_of_shortest_way() {
    let world = world_from(&[".#...", ".#.#.", "...#."]);
    let goal = pos(4, 0);
    let step = bfs_next_step_towards(&world, pos(0, 0), |p| p == goal);
    assert_eq!(step, Some(pos(0, 1)));
    let near = bfs_next_step_towards(&world, pos(0, 0), |p| p == goal || p == pos(0, 2));
    assert_eq!(near, Some(pos(0, 1)));
    let next = bfs_next_step_towards(&world, pos(2, 2), |p| p == pos(2, 0));
    assert_eq!(next, Some(pos(2, 1)));
}

#[test]
fn bfs_returns_none_without_reachable_goal() {
    let world = world_from(&[".#.", "##.", "..."]);
    assert_eq!(bfs_next_step_towards(&world, pos(0, 0), |p| p == pos(2, 2)), None);
    assert_eq!(bfs_next_step_towards(&world, pos(2, 2), |p| p == pos(0, 0)), None);
}

#[test]
fn bfs_never_answers_the_start_itself() {
    let world = world_from(&["..."]);
    assert_eq!(bfs_next_step_towards(&world, pos(1, 0), |p| p == pos(1, 0)), None);
    assert_eq!(bfs_next_step_towards(&world, pos(1, 0), |_| true), Some(pos(2, 0)));
}

#[test]
fn bfs_breaks_ties_by_move_order() {
    let world = world_from(&["...", "...", "..."]);
    assert_eq!(bfs_next_step_towards(&world, pos(1, 1), |p| p == pos(0, 0)), Some(pos(0, 1)));
    assert_eq!(bfs_next_step_towards(&world, pos(1, 1), |p| p == pos(2, 2)), Some(pos(2, 1)));
    assert_eq!(
        bfs_next_step_towards(&world, pos(1, 1), |p| p == pos(0, 0) || p == pos(2, 0)),
        Some(pos(2, 1))
    );
}
