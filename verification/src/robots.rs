use std::collections::VecDeque;
use vstd::prelude::*;

use crate::model::{
    lemma_apply_all_push, lemma_found_reports_keep_map_and_robots, lemma_in_bounds_distance,
    lemma_move_keeps_open_ground, lemma_harvest_keeps_open_ground, lemma_read_after_write, manhattan, harvested, robots_on_open_ground, Grid,
    Message, Position, ResourceKind, Tile, WorldState, WorldView,
};
use crate::positions::PositionSet;
use crate::search::{bfs_next_step_towards, is_walk_away, lemma_passable_interior, step, walk_before};
use crate::simulation::{
    choose_non_repeating_position, discover_surroundings, first_where, interior, is_frontier,
    is_frontier_tile, lemma_first_where, lemma_neighbors_at_distance_one, lemma_step_toward_local,
    neighbor_seq, neighbors, non_repeating_choice, within_one, obstacles_among, push_recent_position,
    resources_among, sightings, step_toward, step_towards_avoiding_recent, trail_after, window,
    drift, drift_step, lemma_drift_local, lemma_sightings_are_found_reports,
    lemma_non_repeating_choice, lemma_step_toward_approaches,
};

verus! {

/// Length of the trail a scout keeps of its recent positions.
pub const SCOUT_TRAIL: usize = 4;

/// Length of the trail a collector keeps of its recent positions.
pub const COLLECTOR_TRAIL: usize = 6;

/// What a scout remembers between its moves.
pub struct ScoutMemory {
    pub known_obstacles: PositionSet,
    pub known_resources: PositionSet,
    pub known_tiles: PositionSet,
    pub recent_positions: VecDeque<Position>,
}

impl ScoutMemory {
    /// A scout that has seen nothing yet.
    pub fn new() -> (m: ScoutMemory)
        ensures
            m.known_obstacles@ == Set::<Position>::empty(),
            m.known_resources@ == Set::<Position>::empty(),
            m.known_tiles@ == Set::<Position>::empty(),
            m.recent_positions@ == Seq::<Position>::empty(),
    {
        ScoutMemory {
            known_obstacles: PositionSet::new(),
            known_resources: PositionSet::new(),
            known_tiles: PositionSet::new(),
            recent_positions: VecDeque::new(),
        }
    }
}

/// The cells of the map among a sequence of positions.
pub open spec fn cells_among(map: Grid, ps: Seq<Position>) -> Set<Position> {
    Set::new(|p: Position| ps.contains(p) && map.contains(p))
}

/// The positions of a sequence that are passable and not known obstacles, in order.
pub open spec fn unblocked_among(map: Grid, known_obstacles: Set<Position>, s: Seq<Position>) -> Seq<
    Position,
>
    decreases s.len(),
{
    if s.len() == 0 {
        Seq::empty()
    } else if map.passable(s.last()) && !known_obstacles.contains(s.last()) {
        unblocked_among(map, known_obstacles, s.drop_last()).push(s.last())
    } else {
        unblocked_among(map, known_obstacles, s.drop_last())
    }
}

/// Where a scout goes when no frontier can be reached: a free neighbour
/// chosen to avoid its trail, or nowhere.
pub open spec fn scout_fallback(
    map: Grid,
    current: Position,
    known_obstacles: Set<Position>,
    recent: Seq<Position>,
) -> Position {
    match non_repeating_choice(unblocked_among(map, known_obstacles, neighbor_seq(current)), recent) {
        Some(c) => c,
        None => current,
    }
}

/// Whether `path` is the first walk from `current` to a frontier tile in
/// search order (shortest first, then by the directions of its moves).
pub open spec fn first_frontier_walk(
    map: Grid,
    current: Position,
    known_tiles: Set<Position>,
    path: Seq<Position>,
) -> bool {
    &&& is_walk_away(map, current, path)
    &&& is_frontier(map, known_tiles, path.last())
    &&& forall|other: Seq<Position>| #[trigger]
        is_walk_away(map, current, other) && walk_before(other, path) ==> !is_frontier(
            map,
            known_tiles,
            other.last(),
        )
}

/// Whether `next` is a move a scout at `current` may make: the first move
/// of the first walk in search order to a frontier tile, or, when no frontier tile is
/// reachable, its fallback move.
pub open spec fn scout_move(
    map: Grid,
    current: Position,
    known_tiles: Set<Position>,
    known_obstacles: Set<Position>,
    recent: Seq<Position>,
    next: Position,
) -> bool {
    ||| exists|path: Seq<Position>|
        #![trigger first_frontier_walk(map, current, known_tiles, path)]
        first_frontier_walk(map, current, known_tiles, path) && path.len() >= 2 && path[1] == next
    ||| {
        &&& forall|path: Seq<Position>| #[trigger]
            is_walk_away(map, current, path) ==> !is_frontier(map, known_tiles, path.last())
        &&& next == scout_fallback(map, current, known_obstacles, recent)
    }
}

/// One round of a scout: it scans around itself, marks the scanned cells
/// as seen, and moves towards the nearest frontier tile (or, with none in
/// reach, to a free neighbour). Returns the reports to send: the new
/// sightings, then its move.
pub fn scout_step(world: &WorldState, id: usize, memory: &mut ScoutMemory) -> (messages: Vec<
    Message,
>)
    requires
        world.wf(),
        id < world@.robots.len(),
        interior(world@.robots[id as int].pos),
    ensures
        ({
            let cur = world@.robots[id as int].pos;
            let map = world@.map;
            let ko = old(memory).known_obstacles@.union(obstacles_among(map, window(cur)));
            let kt = old(memory).known_tiles@.union(cells_among(map, window(cur)));
            &&& final(memory).known_obstacles@ == ko
            &&& final(memory).known_resources@ == old(memory).known_resources@.union(
                resources_among(map, window(cur)),
            )
            &&& final(memory).known_tiles@ == kt
            &&& messages@.len() >= 1
            &&& messages@.drop_last() == sightings(
                map,
                window(cur),
                old(memory).known_obstacles@,
                old(memory).known_resources@,
            )
            &&& messages@.last() matches Message::RobotMoved { id: mid, pos: next } && mid == id
                && scout_move(map, cur, kt, ko, old(memory).recent_positions@, next)
                && final(memory).recent_positions@ == trail_after(
                trail_after(old(memory).recent_positions@, cur, SCOUT_TRAIL as int),
                next,
                SCOUT_TRAIL as int,
            )
        }),
{
    let current = world.robots[id].pos;
    let ghost map = world@.map;
    let mut messages = discover_surroundings(
        world,
        current,
        &mut memory.known_obstacles,
        &mut memory.known_resources,
    );
    let ghost kt0 = memory.known_tiles@;
    let ghost ko0 = memory.known_obstacles@;
    let ghost kr0 = memory.known_resources@;
    let ghost rp0 = memory.recent_positions@;
    let ghost ms0 = messages@;
    for k in 0..9usize
        invariant
            world.wf(),
            map == world@.map,
            interior(current),
            memory.known_obstacles@ == ko0,
            memory.known_resources@ == kr0,
            memory.recent_positions@ == rp0,
            messages@ == ms0,
            memory.known_tiles@ == kt0.union(cells_among(map, window(current).take(k as int))),
    {
        let dx: i32 = (k % 3) as i32 - 1;
        let dy: i32 = (k / 3) as i32 - 1;
        let pos = Position { x: current.x + dx, y: current.y + dy };
        proof {
            assert(pos == window(current)[k as int]);
        }
        if world.map.in_bounds(pos) {
            memory.known_tiles.insert(pos);
        }
        proof {
            assert(window(current).take(k + 1) =~= window(current).take(k as int).push(pos));
            assert forall|p: Position| #[trigger] window(current).take(k + 1).contains(p) <==> (window(
                current,
            ).take(k as int).contains(p) || p == pos) by {
                if window(current).take(k + 1).contains(p) && p != pos {
                    let j = choose|j: int| 0 <= j < k + 1 && #[trigger] window(current).take(k + 1)[j] == p;
                    assert(window(current).take(k as int)[j] == p);
                }
                if p == pos {
                    assert(window(current).take(k + 1)[k as int] == p);
                }
                if window(current).take(k as int).contains(p) {
                    let j = choose|j: int| 0 <= j < k && #[trigger] window(current).take(k as int)[j] == p;
                    assert(window(current).take(k + 1)[j] == p);
                }
            }
            assert(memory.known_tiles@ =~= kt0.union(cells_among(map, window(current).take(k + 1))));
        }
    }
    proof {
        assert(window(current).take(9) =~= window(current));
    }
    let ghost kt = memory.known_tiles@;
    let ghost ko = memory.known_obstacles@;
    let known_tiles = &memory.known_tiles;
    let frontier_test = |pos: Position| -> (b: bool)
        requires
            world.wf(),
        ensures
            b == is_frontier(world@.map, known_tiles@, pos),
        { is_frontier_tile(world, known_tiles, pos) };
    let frontier_step = bfs_next_step_towards(world, current, frontier_test);
    proof {
        if let Some(step) = frontier_step {
            let path = choose|path: Seq<Position>|
                #![trigger is_walk_away(world@.map, current, path)]
                {
                    &&& is_walk_away(world@.map, current, path)
                    &&& path.len() >= 2
                    &&& path[1] == step
                    &&& frontier_test.ensures((path.last(),), true)
                    &&& forall|other: Seq<Position>| #[trigger]
                        is_walk_away(world@.map, current, other) && walk_before(other, path)
                            ==> frontier_test.ensures((other.last(),), false)
                };
            assert(first_frontier_walk(map, current, kt, path));
        }
    }
    let next = match frontier_step {
        Some(step) => step,
        None => {
            let ns = neighbors(current);
            let mut options: Vec<Position> = Vec::new();
            for i in 0..4usize
                invariant
                    world.wf(),
                    map == world@.map,
                    ns@ == neighbor_seq(current),
                    options@ == unblocked_among(map, ko, ns@.take(i as int)),
                    memory.known_obstacles@ == ko,
            {
                proof {
                    assert(ns@.take(i + 1).drop_last() =~= ns@.take(i as int));
                }
                if world.map.is_passable(ns[i]) && !memory.known_obstacles.contains(ns[i]) {
                    options.push(ns[i]);
                }
            }
            proof {
                assert(ns@.take(4) =~= ns@);
            }
            match choose_non_repeating_position(options.as_slice(), &memory.recent_positions) {
                Some(p) => p,
                None => current,
            }
        },
    };
    messages.push(Message::RobotMoved { id, pos: next });
    push_recent_position(&mut memory.recent_positions, current, SCOUT_TRAIL);
    push_recent_position(&mut memory.recent_positions, next, SCOUT_TRAIL);
    proof {
        assert(messages@.drop_last() =~= sightings(
            map,
            window(current),
            old(memory).known_obstacles@,
            old(memory).known_resources@,
        ));
    }
    messages
}

/// What a collector remembers between its moves.
pub struct CollectorMemory {
    pub carrying: Option<ResourceKind>,
    pub recent_positions: VecDeque<Position>,
}

impl CollectorMemory {
    /// An empty-handed collector with no trail.
    pub fn new() -> (m: CollectorMemory)
        ensures
            m.carrying is None,
            m.recent_positions@ == Seq::<Position>::empty(),
    {
        CollectorMemory { carrying: None, recent_positions: VecDeque::new() }
    }
}

/// Moving between `p` and `q` keeps both coordinate offsets and the
/// distance within `i32`.
pub open spec fn offsets_fit(p: Position, q: Position) -> bool {
    &&& i32::MIN <= q.x - p.x <= i32::MAX
    &&& i32::MIN <= q.y - p.y <= i32::MAX
    &&& manhattan(p, q) <= i32::MAX
}

/// A collector at `current` can reckon its way to the base and to every cell
/// of the map without overflow.
pub open spec fn collector_in_range(map: Grid, current: Position) -> bool {
    &&& interior(current)
    &&& offsets_fit(current, map.base)
    &&& forall|p: Position| #[trigger] map.contains(p) ==> offsets_fit(current, p)
}

/// Positions on a well-formed map are in range of one another.
pub proof fn lemma_on_map_in_range(map: Grid, current: Position)
    requires
        map.wf(),
        map.contains(current),
        map.contains(map.base),
    ensures
        collector_in_range(map, current),
{
    lemma_in_bounds_distance(map, current, map.base);
    assert forall|p: Position| #[trigger] map.contains(p) implies offsets_fit(current, p) by {
        lemma_in_bounds_distance(map, current, p);
    }
}

/// A resource tile with units left to harvest.
pub open spec fn harvestable(map: Grid, p: Position) -> bool {
    map.tile(p) matches Some(Tile::Resource { amount, .. }) && amount > 0
}

/// Whether `t` is a target a collector at `current` may pick: a known
/// position with units left and no known such position closer; `None`
/// only when no known position has units left.
pub open spec fn nearest_target(w: WorldView, current: Position, t: Option<Position>) -> bool {
    match t {
        None => forall|p: Position| #[trigger]
            w.known_resources.contains_key(p) ==> !harvestable(w.map, p),
        Some(t) => {
            &&& w.known_resources.contains_key(t)
            &&& harvestable(w.map, t)
            &&& forall|p: Position| #[trigger]
                w.known_resources.contains_key(p) && harvestable(w.map, p) ==> manhattan(t, current)
                    <= manhattan(p, current)
        },
    }
}

/// The trail after a move from `current` to `next`.
pub open spec fn collector_trail(recent: Seq<Position>, current: Position, next: Position) -> Seq<Position> {
    trail_after(trail_after(recent, current, COLLECTOR_TRAIL as int), next, COLLECTOR_TRAIL as int)
}

/// One round of collector `id` as a function of the snapshot, what it
/// carries, its trail and its target: what it carries after, its trail
/// after, and the reports it sends. The round itself changes nothing in the
/// snapshot; every change it makes is one of its reports.
///
/// A loaded collector heads for the base and unloads when it steps onto it.
/// An empty-handed one with a target on its own cell takes one unit there
/// (reporting the cell depleted when that was its last unit); with a target
/// elsewhere it steps towards it; with none it drifts.
pub open spec fn collector_outcome(
    w: WorldView,
    id: usize,
    carrying: Option<ResourceKind>,
    recent: Seq<Position>,
    target: Option<Position>,
) -> (Option<ResourceKind>, Seq<Position>, Seq<Message>) {
    let cur = w.robots[id as int].pos;
    match carrying {
        Some(kind) => {
            let next = step_toward(w.map, cur, w.map.base, recent);
            let moved = Message::RobotMoved { id, pos: next };
            if next == w.map.base {
                (None, collector_trail(recent, cur, next), seq![moved, Message::Deposited(kind)])
            } else {
                (Some(kind), collector_trail(recent, cur, next), seq![moved])
            }
        },
        None => match target {
            None => {
                let next = drift(w.map, cur, recent);
                (None, collector_trail(recent, cur, next), seq![Message::RobotMoved { id, pos: next }])
            },
            Some(t) => if t == cur {
                match w.map.tile(cur) {
                    Some(Tile::Resource { kind, amount }) => if amount > 0 {
                        if amount == 1 {
                            (Some(kind), recent, seq![Message::Harvested { pos: cur, kind }, Message::ResourceDepleted(cur)])
                        } else {
                            (Some(kind), recent, seq![Message::Harvested { pos: cur, kind }])
                        }
                    } else {
                        (None, recent, Seq::empty())
                    },
                    _ => (None, recent, Seq::empty()),
                }
            } else {
                let next = step_toward(w.map, cur, t, recent);
                (None, collector_trail(recent, cur, next), seq![Message::RobotMoved { id, pos: next }])
            },
        },
    }
}

/// Picks the nearest known resource that still holds units; among equally
/// near ones, the first in the index's order.
pub fn nearest_known_resource(world: &WorldState, current: Position) -> (t: Option<Position>)
    requires
        world.wf(),
        forall|p: Position| #[trigger] world@.map.contains(p) ==> manhattan(p, current) <= i32::MAX,
    ensures
        nearest_target(world@, current, t),
{
    let positions = world.known_resources.positions();
    let ghost map = world@.map;
    let mut best: Option<Position> = None;
    let mut best_d: i32 = 0;
    let n = positions.len();
    for i in 0..n
        invariant
            world.wf(),
            map == world@.map,
            forall|p: Position| #[trigger] map.contains(p) ==> manhattan(p, current) <= i32::MAX,
            n == positions@.len(),
            positions@.to_set() == world@.known_resources.dom(),
            match best {
                Some(b) => {
                    &&& world@.known_resources.contains_key(b)
                    &&& harvestable(map, b)
                    &&& best_d == manhattan(b, current)
                    &&& forall|j: int|
                        0 <= j < i && harvestable(map, #[trigger] positions@[j]) ==> best_d <= manhattan(
                            positions@[j],
                            current,
                        )
                },
                None => forall|j: int| 0 <= j < i ==> !harvestable(map, #[trigger] positions@[j]),
            },
    {
        let p = positions[i];
        proof {
            assert(positions@.to_set().contains(p));
        }
        let open = match world.map.tile_at(p) {
            Some(Tile::Resource { amount, .. }) => *amount > 0,
            _ => false,
        };
        if open {
            let d = p.manhattan_distance(current);
            if best.is_none() || d < best_d {
                best = Some(p);
                best_d = d;
            }
        }
    }
    proof {
        assert forall|p: Position| #[trigger] world@.known_resources.contains_key(p) && harvestable(map, p) implies (
            best matches Some(b) && manhattan(b, current) <= manhattan(p, current)) by {
            assert(world@.known_resources.dom().contains(p));
            assert(positions@.to_set().contains(p));
            let j = choose|j: int| 0 <= j < n && positions@[j] == p;
        }
    }
    best
}

/// One round of collector `id` towards a given target (ignored while it
/// carries a load); see `collector_outcome`. It reads the snapshot only;
/// what it changes there it returns as reports.
pub fn collector_act(
    world: &WorldState,
    id: usize,
    memory: &mut CollectorMemory,
    target: Option<Position>,
) -> (messages: Vec<Message>)
    requires
        world.wf(),
        id < world@.robots.len(),
        collector_in_range(world@.map, world@.robots[id as int].pos),
        target matches Some(t) ==> world@.map.contains(t),
    ensures
        (final(memory).carrying, final(memory).recent_positions@, messages@) == collector_outcome(
            world@,
            id,
            old(memory).carrying,
            old(memory).recent_positions@,
            target,
        ),
{
    let current = world.robots[id].pos;
    let base = world.map.base;
    proof {
        if let Some(t) = target {
            assert(offsets_fit(current, t));
        }
    }
    let mut messages: Vec<Message> = Vec::new();
    if let Some(kind) = memory.carrying {
        let next = step_towards_avoiding_recent(world, current, base, &memory.recent_positions);
        messages.push(Message::RobotMoved { id, pos: next });
        if next == base {
            messages.push(Message::Deposited(kind));
            memory.carrying = None;
        }
        push_recent_position(&mut memory.recent_positions, current, COLLECTOR_TRAIL);
        push_recent_position(&mut memory.recent_positions, next, COLLECTOR_TRAIL);
        proof {
            if next == base {
                assert(messages@ =~= seq![Message::RobotMoved { id, pos: next }, Message::Deposited(kind)]);
            } else {
                assert(messages@ =~= seq![Message::RobotMoved { id, pos: next }]);
            }
        }
        return messages;
    }
    if target.is_none() {
        let next = drift_step(world, current, &memory.recent_positions);
        messages.push(Message::RobotMoved { id, pos: next });
        push_recent_position(&mut memory.recent_positions, current, COLLECTOR_TRAIL);
        push_recent_position(&mut memory.recent_positions, next, COLLECTOR_TRAIL);
        proof {
            assert(messages@ =~= seq![Message::RobotMoved { id, pos: next }]);
        }
        return messages;
    }
    if let Some(target) = target {
        if target == current {
            let here: Option<Tile> = match world.map.tile_at(current) {
                Some(t) => Some(*t),
                None => None,
            };
            if let Some(Tile::Resource { kind, amount }) = here {
                if amount > 0 {
                    memory.carrying = Some(kind);
                    messages.push(Message::Harvested { pos: current, kind });
                    if amount == 1 {
                        messages.push(Message::ResourceDepleted(current));
                    }
                    proof {
                        if amount == 1 {
                            assert(messages@ =~= seq![Message::Harvested { pos: current, kind }, Message::ResourceDepleted(current)]);
                        } else {
                            assert(messages@ =~= seq![Message::Harvested { pos: current, kind }]);
                        }
                    }
                }
            }
        } else {
            let next = step_towards_avoiding_recent(world, current, target, &memory.recent_positions);
            messages.push(Message::RobotMoved { id, pos: next });
            push_recent_position(&mut memory.recent_positions, current, COLLECTOR_TRAIL);
            push_recent_position(&mut memory.recent_positions, next, COLLECTOR_TRAIL);
            proof {
                assert(messages@ =~= seq![Message::RobotMoved { id, pos: next }]);
            }
        }
    }
    messages
}

/// One round of collector `id`: while empty-handed it first picks the
/// nearest known resource with units left, then acts as `collector_act`.
pub fn collector_step(world: &WorldState, id: usize, memory: &mut CollectorMemory) -> (messages:
    Vec<Message>)
    requires
        world.wf(),
        id < world@.robots.len(),
        collector_in_range(world@.map, world@.robots[id as int].pos),
    ensures
        exists|t: Option<Position>|
            {
                &&& (if old(memory).carrying is Some {
                    t is None
                } else {
                    nearest_target(world@, world@.robots[id as int].pos, t)
                })
                &&& (final(memory).carrying, final(memory).recent_positions@, messages@)
                    == #[trigger] collector_outcome(
                    world@,
                    id,
                    old(memory).carrying,
                    old(memory).recent_positions@,
                    t,
                )
            },
{
    let current = world.robots[id].pos;
    let target = if memory.carrying.is_none() {
        nearest_known_resource(world, current)
    } else {
        None
    };
    proof {
        if let Some(t) = target {
            assert(harvestable(world@.map, t));
        }
    }
    collector_act(world, id, memory, target)
}

/// The positions kept by `unblocked_among` are passable members of the sequence.
pub proof fn lemma_unblocked_among(map: Grid, known_obstacles: Set<Position>, s: Seq<Position>)
    ensures
        forall|i: int|
            0 <= i < unblocked_among(map, known_obstacles, s).len() ==> map.passable(
                #[trigger] unblocked_among(map, known_obstacles, s)[i],
            ) && s.contains(unblocked_among(map, known_obstacles, s)[i]) && !known_obstacles.contains(
                unblocked_among(map, known_obstacles, s)[i],
            ),
    decreases s.len(),
{
    if s.len() > 0 {
        lemma_unblocked_among(map, known_obstacles, s.drop_last());
        let u = unblocked_among(map, known_obstacles, s);
        let v = unblocked_among(map, known_obstacles, s.drop_last());
        assert forall|i: int| 0 <= i < u.len() implies map.passable(#[trigger] u[i]) && s.contains(u[i])
            && !known_obstacles.contains(u[i]) by {
            if i < v.len() {
                let j = choose|j: int| 0 <= j < s.drop_last().len() && s.drop_last()[j] == v[i];
                assert(s[j] == u[i]);
            } else {
                assert(s[s.len() - 1] == u[i]);
            }
        }
    }
}

/// A scout moves by at most one orthogonal step, and only onto passable tiles.
pub proof fn lemma_scout_moves_locally(
    map: Grid,
    current: Position,
    known_tiles: Set<Position>,
    known_obstacles: Set<Position>,
    recent: Seq<Position>,
    next: Position,
)
    requires
        interior(current),
        scout_move(map, current, known_tiles, known_obstacles, recent, next),
    ensures
        next == current || (map.passable(next) && manhattan(current, next) == 1),
{
    if exists|path: Seq<Position>|
        #![trigger first_frontier_walk(map, current, known_tiles, path)]
        first_frontier_walk(map, current, known_tiles, path) && path.len() >= 2 && path[1] == next {
        let path = choose|path: Seq<Position>|
            #![trigger first_frontier_walk(map, current, known_tiles, path)]
            first_frontier_walk(map, current, known_tiles, path) && path.len() >= 2 && path[1] == next;
        assert(step(map, path[0], path[1]));
    } else {
        let cands = unblocked_among(map, known_obstacles, neighbor_seq(current));
        lemma_unblocked_among(map, known_obstacles, neighbor_seq(current));
        lemma_first_where(cands, |c: Position| !recent.contains(c));
        if next != current {
            let k = if first_where(cands, |c: Position| !recent.contains(c)) is Some {
                choose|i: int| 0 <= i < cands.len() && cands[i] == next
            } else {
                0
            };
            assert(cands[k] == next);
            assert(neighbor_seq(current).contains(next));
            lemma_neighbors_at_distance_one(current, next);
        }
    }
}

/// Every passable position of a sequence that is not a known obstacle is kept
/// by `unblocked_among`.
pub proof fn lemma_unblocked_complete(map: Grid, known_obstacles: Set<Position>, s: Seq<Position>, q: Position)
    requires
        s.contains(q),
        map.passable(q),
        !known_obstacles.contains(q),
    ensures
        unblocked_among(map, known_obstacles, s).contains(q),
    decreases s.len(),
{
    let u = unblocked_among(map, known_obstacles, s);
    if s.last() == q {
        assert(u.last() == q);
    } else {
        let i = choose|i: int| 0 <= i < s.len() && s[i] == q;
        assert(s.drop_last()[i] == q);
        lemma_unblocked_complete(map, known_obstacles, s.drop_last(), q);
        let v = unblocked_among(map, known_obstacles, s.drop_last());
        let j = choose|j: int| 0 <= j < v.len() && v[j] == q;
        assert(u[j] == q);
    }
}

/// A scout that can reach no frontier tile moves, when some free neighbour
/// (passable and not a known obstacle) is off its recent trail, to such a
/// neighbour, the first of them among its free neighbours in neighbour order:
/// it does not walk back onto its trail while it has another way.
pub proof fn lemma_scout_fallback_avoids_trail(
    map: Grid,
    current: Position,
    known_tiles: Set<Position>,
    known_obstacles: Set<Position>,
    recent: Seq<Position>,
    next: Position,
    q: Position,
)
    requires
        forall|path: Seq<Position>| #[trigger]
            is_walk_away(map, current, path) ==> !is_frontier(map, known_tiles, path.last()),
        neighbor_seq(current).contains(q),
        map.passable(q),
        !known_obstacles.contains(q),
        !recent.contains(q),
        scout_move(map, current, known_tiles, known_obstacles, recent, next),
    ensures
        neighbor_seq(current).contains(next),
        map.passable(next),
        !known_obstacles.contains(next),
        !recent.contains(next),
        ({
            let free = unblocked_among(map, known_obstacles, neighbor_seq(current));
            exists|k: int|
                0 <= k < free.len() && #[trigger] free[k] == next && forall|j: int|
                    0 <= j < k ==> recent.contains(#[trigger] free[j])
        }),
{
    let free = unblocked_among(map, known_obstacles, neighbor_seq(current));
    if exists|path: Seq<Position>|
        #![trigger first_frontier_walk(map, current, known_tiles, path)]
        first_frontier_walk(map, current, known_tiles, path) && path.len() >= 2 && path[1] == next {
        let path = choose|path: Seq<Position>|
            #![trigger first_frontier_walk(map, current, known_tiles, path)]
            first_frontier_walk(map, current, known_tiles, path) && path.len() >= 2 && path[1] == next;
        assert(is_walk_away(map, current, path));
        assert(false);
    }
    assert(next == scout_fallback(map, current, known_obstacles, recent));
    lemma_unblocked_complete(map, known_obstacles, neighbor_seq(current), q);
    lemma_unblocked_among(map, known_obstacles, neighbor_seq(current));
    let i = choose|i: int| 0 <= i < free.len() && free[i] == q;
    assert(!recent.contains(free[i]));
    lemma_non_repeating_choice(free, recent);
    let k = choose|k: int|
        0 <= k < free.len() && non_repeating_choice(free, recent) == Some(#[trigger] free[k]) && !recent.contains(
            free[k],
        ) && forall|j: int| 0 <= j < k ==> recent.contains(#[trigger] free[j]);
    assert(free[k] == next);
}

/// An empty-handed collector with a target elsewhere heads for it: its
/// round is a single move of its own, and whenever an orthogonal neighbour
/// closer to the target is passable and off its trail, that move brings it
/// strictly closer to the target.
pub proof fn lemma_collector_heads_for_target(
    w: WorldView,
    id: usize,
    recent: Seq<Position>,
    t: Position,
    n: Position,
)
    requires
        w.map.wf(),
        id < w.robots.len(),
        collector_in_range(w.map, w.robots[id as int].pos),
        w.map.contains(t),
        t != w.robots[id as int].pos,
    ensures
        ({
            let cur = w.robots[id as int].pos;
            let out = collector_outcome(w, id, None, recent, Some(t));
            &&& out.0 is None
            &&& out.2.len() == 1
            &&& out.2[0] matches Message::RobotMoved { id: mover, pos: next } && mover == id && (
            neighbor_seq(cur).contains(n) && w.map.passable(n) && !recent.contains(n) && manhattan(n, t)
                < manhattan(cur, t) ==> manhattan(next, t) < manhattan(cur, t))
        }),
{
    let cur = w.robots[id as int].pos;
    if neighbor_seq(cur).contains(n) && w.map.passable(n) && !recent.contains(n) && manhattan(n, t)
        < manhattan(cur, t) {
        lemma_step_toward_approaches(w.map, cur, t, recent, n);
    }
}

/// Harvesting takes exactly one unit from the collector's own cell and puts
/// that kind in its hands; once its reports are applied, the cell is emptied,
/// and reported depleted, exactly when its last unit goes. Nothing else on
/// the map changes.
pub proof fn lemma_harvest_takes_one_unit(
    w: WorldView,
    id: usize,
    recent: Seq<Position>,
    kind: ResourceKind,
    amount: u16,
    q: Position,
)
    requires
        w.map.wf(),
        id < w.robots.len(),
        w.map.tile(w.robots[id as int].pos) == Some(Tile::Resource { kind, amount }),
        amount > 0,
    ensures
        ({
            let cur = w.robots[id as int].pos;
            let out = collector_outcome(w, id, None, recent, Some(cur));
            &&& out.0 == Some(kind)
            &&& out.2 == (if amount == 1 {
                seq![Message::Harvested { pos: cur, kind }, Message::ResourceDepleted(cur)]
            } else {
                seq![Message::Harvested { pos: cur, kind }]
            })
            &&& w.apply_all(out.2).map.tile(cur) == Some(
                if amount == 1 {
                    Tile::Empty
                } else {
                    Tile::Resource { kind, amount: (amount - 1) as u16 }
                },
            )
            &&& (q != cur ==> w.apply_all(out.2).map.tile(q) == w.map.tile(q))
        }),
{
    let cur = w.robots[id as int].pos;
    let out = collector_outcome(w, id, None, recent, Some(cur));
    let h = Message::Harvested { pos: cur, kind };
    crate::model::lemma_read_after_write(w.map, cur, harvested(Tile::Resource { kind, amount }), cur);
    crate::model::lemma_read_after_write(w.map, cur, harvested(Tile::Resource { kind, amount }), q);
    assert(seq![h] =~= Seq::<Message>::empty().push(h));
    lemma_apply_all_push(w, Seq::<Message>::empty(), h);
    if amount == 1 {
        let d = Message::ResourceDepleted(cur);
        assert(seq![h, d] =~= seq![h].push(d));
        lemma_apply_all_push(w, seq![h], d);
    }
}

/// A collector unloads only by stepping onto the base with a load, and
/// then unloads exactly what it carried.
pub proof fn lemma_unload_only_at_base(
    w: WorldView,
    id: usize,
    carrying: Option<ResourceKind>,
    recent: Seq<Position>,
    target: Option<Position>,
    k: ResourceKind,
)
    requires
        collector_outcome(w, id, carrying, recent, target).2.contains(Message::Deposited(k)),
    ensures
        carrying == Some(k),
        collector_outcome(w, id, carrying, recent, target).2 == seq![
            Message::RobotMoved { id, pos: w.map.base },
            Message::Deposited(k),
        ],
        collector_outcome(w, id, carrying, recent, target).0 is None,
{
    let out = collector_outcome(w, id, carrying, recent, target);
    let i = choose|i: int| 0 <= i < out.2.len() && out.2[i] == Message::Deposited(k);
}

/// A collector moves by at most one cell (diagonals included), and only onto passable tiles.
pub proof fn lemma_collector_moves_locally(
    w: WorldView,
    id: usize,
    carrying: Option<ResourceKind>,
    recent: Seq<Position>,
    target: Option<Position>,
    next: Position,
)
    requires
        w.map.wf(),
        id < w.robots.len(),
        collector_in_range(w.map, w.robots[id as int].pos),
        target matches Some(t) ==> w.map.contains(t),
        collector_outcome(w, id, carrying, recent, target).2.contains(
            Message::RobotMoved { id, pos: next },
        ),
    ensures
        next == w.robots[id as int].pos || (w.map.passable(next) && within_one(
            w.robots[id as int].pos,
            next,
        )),
{
    let cur = w.robots[id as int].pos;
    let out = collector_outcome(w, id, carrying, recent, target);
    let i = choose|i: int| 0 <= i < out.2.len() && out.2[i] == Message::RobotMoved { id, pos: next };
    lemma_step_toward_local(w.map, cur, w.map.base, recent);
    lemma_drift_local(w.map, cur, recent);
    if let Some(t) = target {
        assert(offsets_fit(cur, t));
        lemma_step_toward_local(w.map, cur, t, recent);
    }
}

/// What a collector carries, as a sequence of at most one kind.
pub open spec fn load_of(carrying: Option<ResourceKind>) -> Seq<ResourceKind> {
    match carrying {
        Some(k) => seq![k],
        None => Seq::empty(),
    }
}

/// Kinds of the units reported harvested, in order.
pub open spec fn harvested_kinds(ms: Seq<Message>) -> Seq<ResourceKind>
    decreases ms.len(),
{
    if ms.len() == 0 {
        Seq::empty()
    } else {
        let rest = harvested_kinds(ms.drop_first());
        match ms[0] {
            Message::Harvested { kind, .. } => seq![kind] + rest,
            _ => rest,
        }
    }
}

/// Kinds of the units reported deposited, in order.
pub open spec fn deposited_kinds(ms: Seq<Message>) -> Seq<ResourceKind>
    decreases ms.len(),
{
    if ms.len() == 0 {
        Seq::empty()
    } else {
        let rest = deposited_kinds(ms.drop_first());
        match ms[0] {
            Message::Deposited(kind) => seq![kind] + rest,
            _ => rest,
        }
    }
}

/// The harvests and deposits reported by two batches are those of the first
/// followed by those of the second.
pub proof fn lemma_kinds_concat(a: Seq<Message>, b: Seq<Message>)
    ensures
        harvested_kinds(a + b) == harvested_kinds(a) + harvested_kinds(b),
        deposited_kinds(a + b) == deposited_kinds(a) + deposited_kinds(b),
    decreases a.len(),
{
    if a.len() == 0 {
        assert(a + b =~= b);
        assert(harvested_kinds(a) + harvested_kinds(b) =~= harvested_kinds(b));
        assert(deposited_kinds(a) + deposited_kinds(b) =~= deposited_kinds(b));
    } else {
        assert((a + b)[0] == a[0]);
        assert((a + b).drop_first() =~= a.drop_first() + b);
        lemma_kinds_concat(a.drop_first(), b);
        let ha = harvested_kinds(a.drop_first());
        let da = deposited_kinds(a.drop_first());
        assert(forall|k: ResourceKind| seq![k] + (ha + harvested_kinds(b)) =~= (seq![k] + ha) + harvested_kinds(b));
        assert(forall|k: ResourceKind| seq![k] + (da + deposited_kinds(b)) =~= (seq![k] + da) + deposited_kinds(b));
    }
}

/// A collector's rounds, one per snapshot and target in turn, from what it
/// carries and its trail at the start: what it carries at the end, and all
/// the reports it sent, in order.
pub open spec fn collector_run(
    ws: Seq<WorldView>,
    id: usize,
    carrying: Option<ResourceKind>,
    recent: Seq<Position>,
    targets: Seq<Option<Position>>,
) -> (Option<ResourceKind>, Seq<Message>)
    decreases ws.len(),
{
    if ws.len() == 0 || targets.len() == 0 {
        (carrying, Seq::empty())
    } else {
        let out = collector_outcome(ws[0], id, carrying, recent, targets[0]);
        let rest = collector_run(ws.drop_first(), id, out.0, out.1, targets.drop_first());
        (rest.0, out.2 + rest.1)
    }
}

/// In one round, what the collector carried and then harvested is what it
/// deposited and then carries.
pub proof fn lemma_collector_round_balance(
    w: WorldView,
    id: usize,
    carrying: Option<ResourceKind>,
    recent: Seq<Position>,
    target: Option<Position>,
)
    ensures
        ({
            let out = collector_outcome(w, id, carrying, recent, target);
            load_of(carrying) + harvested_kinds(out.2) == deposited_kinds(out.2) + load_of(out.0)
        }),
{
    reveal_with_fuel(harvested_kinds, 3);
    reveal_with_fuel(deposited_kinds, 3);
    let out = collector_outcome(w, id, carrying, recent, target);
    let ms = out.2;
    if ms.len() == 2 {
        assert(ms.drop_first().drop_first() =~= Seq::<Message>::empty());
    }
    if ms.len() >= 1 {
        assert(ms.len() == 1 ==> ms.drop_first() =~= Seq::<Message>::empty());
    }
    assert(load_of(carrying) + harvested_kinds(ms) =~= deposited_kinds(ms) + load_of(out.0));
}

/// Over any run of a collector's rounds, whatever the snapshots and targets,
/// the units it reports deposited are, in order, the units it reports
/// harvested, save the one it may still carry: what it carried at the start
/// and then harvested is what it deposited and then still carries. A
/// collector that starts empty-handed has, at every point, deposited every
/// unit it harvested but at most the last, which it then carries; each
/// deposit names the kind of the matching harvest.
pub proof fn lemma_collector_deposits_follow_harvests(
    ws: Seq<WorldView>,
    id: usize,
    carrying: Option<ResourceKind>,
    recent: Seq<Position>,
    targets: Seq<Option<Position>>,
)
    ensures
        ({
            let r = collector_run(ws, id, carrying, recent, targets);
            let h = harvested_kinds(r.1);
            let d = deposited_kinds(r.1);
            &&& load_of(carrying) + h == d + load_of(r.0)
            &&& carrying is None ==> {
                &&& d.len() <= h.len() <= d.len() + 1
                &&& (h.len() == d.len() + 1 <==> r.0 is Some)
                &&& forall|i: int| 0 <= i < d.len() ==> #[trigger] d[i] == h[i]
            }
        }),
    decreases ws.len(),
{
    let r = collector_run(ws, id, carrying, recent, targets);
    if ws.len() == 0 || targets.len() == 0 {
        assert(load_of(carrying) + Seq::<ResourceKind>::empty() =~= Seq::<ResourceKind>::empty() + load_of(carrying));
    } else {
        let out = collector_outcome(ws[0], id, carrying, recent, targets[0]);
        let rest = collector_run(ws.drop_first(), id, out.0, out.1, targets.drop_first());
        lemma_collector_round_balance(ws[0], id, carrying, recent, targets[0]);
        lemma_collector_deposits_follow_harvests(ws.drop_first(), id, out.0, out.1, targets.drop_first());
        lemma_kinds_concat(out.2, rest.1);
        let h0 = harvested_kinds(out.2);
        let d0 = deposited_kinds(out.2);
        let h1 = harvested_kinds(rest.1);
        let d1 = deposited_kinds(rest.1);
        assert(load_of(carrying) + (h0 + h1) =~= (load_of(carrying) + h0) + h1);
        assert((d0 + load_of(out.0)) + h1 =~= d0 + (load_of(out.0) + h1));
        assert(d0 + (d1 + load_of(rest.0)) =~= (d0 + d1) + load_of(rest.0));
    }
    let h = harvested_kinds(r.1);
    let d = deposited_kinds(r.1);
    if carrying is None {
        assert(load_of(carrying) + h =~= h);
        assert forall|i: int| 0 <= i < d.len() implies #[trigger] d[i] == h[i] by {
            assert((d + load_of(r.0))[i] == d[i]);
        }
    }
}

/// Whether two reports tell of the same obstacle, or of the same resource cell.
pub open spec fn same_find(a: Message, b: Message) -> bool {
    match (a, b) {
        (Message::ObstacleFound(p), Message::ObstacleFound(q)) => p == q,
        (Message::ResourceFound { pos: p, .. }, Message::ResourceFound { pos: q, .. }) => p == q,
        _ => false,
    }
}

/// No two reports of a sequence tell of the same find, and none tells of
/// an obstacle in `ko` or of a resource cell in `kr`.
pub open spec fn finds_new_and_distinct(ms: Seq<Message>, ko: Set<Position>, kr: Set<Position>) -> bool {
    &&& forall|i: int, j: int| 0 <= i < j < ms.len() ==> !same_find(#[trigger] ms[i], #[trigger] ms[j])
    &&& forall|i: int|
        0 <= i < ms.len() ==> match #[trigger] ms[i] {
            Message::ObstacleFound(p) => !ko.contains(p),
            Message::ResourceFound { pos, .. } => !kr.contains(pos),
            _ => true,
        }
}

/// The sighting reports of a scout's scans, one round per snapshot and
/// centre in turn, its records growing after each scan by what it saw.
pub open spec fn scan_run(
    maps: Seq<Grid>,
    centers: Seq<Position>,
    ko: Set<Position>,
    kr: Set<Position>,
) -> Seq<Message>
    decreases maps.len(),
{
    if maps.len() == 0 || centers.len() == 0 {
        Seq::empty()
    } else {
        let w = window(centers[0]);
        sightings(maps[0], w, ko, kr) + scan_run(
            maps.drop_first(),
            centers.drop_first(),
            ko.union(obstacles_among(maps[0], w)),
            kr.union(resources_among(maps[0], w)),
        )
    }
}

/// The nine cells around a position away from the coordinate limits are distinct.
pub proof fn lemma_window_distinct(c: Position)
    requires
        interior(c),
    ensures
        forall|i: int, j: int| 0 <= i < j < 9 ==> #[trigger] window(c)[i] != #[trigger] window(c)[j],
{
    assert forall|i: int, j: int| 0 <= i < j < 9 implies #[trigger] window(c)[i] != #[trigger] window(c)[j] by {
        vstd::arithmetic::div_mod::lemma_fundamental_div_mod(i, 3);
        vstd::arithmetic::div_mod::lemma_fundamental_div_mod(j, 3);
        assert(0 <= i / 3 < 3 && 0 <= j / 3 < 3) by (nonlinear_arith)
            requires
                0 <= i < 9,
                0 <= j < 9,
        ;
    }
}

/// One scan over distinct cells reports each find at most once, only finds
/// missing from the records, and only cells it scanned.
pub proof fn lemma_sightings_new_and_distinct(
    map: Grid,
    ps: Seq<Position>,
    ko: Set<Position>,
    kr: Set<Position>,
)
    requires
        forall|i: int, j: int| 0 <= i < j < ps.len() ==> #[trigger] ps[i] != #[trigger] ps[j],
    ensures
        finds_new_and_distinct(sightings(map, ps, ko, kr), ko, kr),
        forall|i: int|
            0 <= i < sightings(map, ps, ko, kr).len() ==> match #[trigger] sightings(map, ps, ko, kr)[i] {
                Message::ObstacleFound(p) => obstacles_among(map, ps).contains(p),
                Message::ResourceFound { pos, .. } => resources_among(map, ps).contains(pos),
                _ => false,
            },
    decreases ps.len(),
{
    if ps.len() > 0 {
        let q = ps.drop_last();
        let p = ps.last();
        lemma_sightings_new_and_distinct(map, q, ko, kr);
        let rest = sightings(map, q, ko, kr);
        let r = sightings(map, ps, ko, kr);
        assert forall|i: int| 0 <= i < rest.len() implies match #[trigger] rest[i] {
            Message::ObstacleFound(x) => obstacles_among(map, ps).contains(x) && x != p,
            Message::ResourceFound { pos, .. } => resources_among(map, ps).contains(pos) && pos != p,
            _ => false,
        } by {
            match rest[i] {
                Message::ObstacleFound(x) => {
                    let k = choose|k: int| 0 <= k < q.len() && q[k] == x;
                    assert(ps[k] == x);
                    assert(ps[ps.len() - 1] == p);
                },
                Message::ResourceFound { pos, .. } => {
                    let k = choose|k: int| 0 <= k < q.len() && q[k] == pos;
                    assert(ps[k] == pos);
                    assert(ps[ps.len() - 1] == p);
                },
                _ => {},
            }
        }
        assert(ps.contains(p)) by {
            assert(ps[ps.len() - 1] == p);
        }
        if r.len() > rest.len() {
            assert forall|i: int| 0 <= i < rest.len() implies r[i] == rest[i] by {}
        }
    }
}

/// Over any run of a scout's scans, whatever the snapshots, a scout reports
/// each obstacle at most once and each resource cell at most once, and
/// never one already in the records it started with.
pub proof fn lemma_scout_reports_each_find_once(
    maps: Seq<Grid>,
    centers: Seq<Position>,
    ko: Set<Position>,
    kr: Set<Position>,
)
    requires
        forall|i: int| 0 <= i < centers.len() ==> interior(#[trigger] centers[i]),
    ensures
        finds_new_and_distinct(scan_run(maps, centers, ko, kr), ko, kr),
    decreases maps.len(),
{
    if maps.len() > 0 && centers.len() > 0 {
        let w = window(centers[0]);
        let ko1 = ko.union(obstacles_among(maps[0], w));
        let kr1 = kr.union(resources_among(maps[0], w));
        let s0 = sightings(maps[0], w, ko, kr);
        let rest = scan_run(maps.drop_first(), centers.drop_first(), ko1, kr1);
        let r = scan_run(maps, centers, ko, kr);
        lemma_window_distinct(centers[0]);
        lemma_sightings_new_and_distinct(maps[0], w, ko, kr);
        assert forall|i: int| 0 <= i < centers.drop_first().len() implies interior(
            #[trigger] centers.drop_first()[i],
        ) by {
            assert(centers.drop_first()[i] == centers[i + 1]);
        }
        lemma_scout_reports_each_find_once(maps.drop_first(), centers.drop_first(), ko1, kr1);
        assert(r == s0 + rest);
        let n = s0.len();
        assert forall|i: int, j: int| 0 <= i < j < r.len() implies !same_find(#[trigger] r[i], #[trigger] r[j]) by {
            if j < n {
                assert(r[i] == s0[i] && r[j] == s0[j]);
            } else if i >= n {
                assert(r[i] == rest[i - n] && r[j] == rest[j - n]);
            } else {
                assert(r[i] == s0[i] && r[j] == rest[j - n]);
                match s0[i] {
                    Message::ObstacleFound(p) => {
                        assert(ko1.contains(p));
                    },
                    Message::ResourceFound { pos, .. } => {
                        assert(kr1.contains(pos));
                    },
                    _ => {},
                }
            }
        }
        assert forall|i: int| 0 <= i < r.len() implies match #[trigger] r[i] {
            Message::ObstacleFound(p) => !ko.contains(p),
            Message::ResourceFound { pos, .. } => !kr.contains(pos),
            _ => true,
        } by {
            if i < n {
                assert(r[i] == s0[i]);
            } else {
                assert(r[i] == rest[i - n]);
            }
        }
    }
}

/// A scout's round keeps every robot on passable ground: its sightings
/// change neither map nor robots, and its move leads onto a passable tile or
/// nowhere.
pub proof fn lemma_scout_round_keeps_open_ground(
    w: WorldView,
    id: usize,
    known_obstacles: Set<Position>,
    known_resources: Set<Position>,
    known_tiles: Set<Position>,
    recent: Seq<Position>,
    next: Position,
)
    requires
        robots_on_open_ground(w),
        id < w.robots.len(),
        interior(w.robots[id as int].pos),
        scout_move(
            w.map,
            w.robots[id as int].pos,
            known_tiles,
            known_obstacles.union(obstacles_among(w.map, window(w.robots[id as int].pos))),
            recent,
            next,
        ),
    ensures
        robots_on_open_ground(
            w.apply_all(
                sightings(w.map, window(w.robots[id as int].pos), known_obstacles, known_resources).push(
                    Message::RobotMoved { id, pos: next },
                ),
            ),
        ),
{
    let cur = w.robots[id as int].pos;
    let ms = sightings(w.map, window(cur), known_obstacles, known_resources);
    lemma_sightings_are_found_reports(w.map, window(cur), known_obstacles, known_resources);
    lemma_found_reports_keep_map_and_robots(w, ms);
    lemma_apply_all_push(w, ms, Message::RobotMoved { id, pos: next });
    lemma_scout_moves_locally(
        w.map,
        cur,
        known_tiles,
        known_obstacles.union(obstacles_among(w.map, window(cur))),
        recent,
        next,
    );
    let w1 = w.apply_all(ms);
    assert(robots_on_open_ground(w1));
    lemma_move_keeps_open_ground(w1, id, next);
}

/// A collector's round keeps every robot on passable ground: it moves only
/// onto passable tiles, and harvesting leaves its cell passable.
pub proof fn lemma_collector_round_keeps_open_ground(
    w: WorldView,
    id: usize,
    carrying: Option<ResourceKind>,
    recent: Seq<Position>,
    target: Option<Position>,
)
    requires
        w.map.wf(),
        robots_on_open_ground(w),
        id < w.robots.len(),
        collector_in_range(w.map, w.robots[id as int].pos),
        target matches Some(t) ==> w.map.contains(t),
    ensures
        robots_on_open_ground(w.apply_all(collector_outcome(w, id, carrying, recent, target).2)),
{
    let cur = w.robots[id as int].pos;
    let out = collector_outcome(w, id, carrying, recent, target);
    lemma_step_toward_local(w.map, cur, w.map.base, recent);
    lemma_drift_local(w.map, cur, recent);
    if let Some(t) = target {
        assert(offsets_fit(cur, t));
        lemma_step_toward_local(w.map, cur, t, recent);
    }
    let ms = out.2;
    if ms.len() == 1 {
        assert(ms =~= Seq::<Message>::empty().push(ms[0]));
        lemma_apply_all_push(w, Seq::<Message>::empty(), ms[0]);
        match ms[0] {
            Message::RobotMoved { pos, .. } => lemma_move_keeps_open_ground(w, id, pos),
            Message::Harvested { pos, kind } => lemma_harvest_keeps_open_ground(w, pos, kind),
            _ => {},
        }
    } else if ms.len() == 2 {
        assert(ms =~= Seq::<Message>::empty().push(ms[0]).push(ms[1]));
        lemma_apply_all_push(w, Seq::<Message>::empty().push(ms[0]), ms[1]);
        lemma_apply_all_push(w, Seq::<Message>::empty(), ms[0]);
        if carrying is Some {
            let next = step_toward(w.map, cur, w.map.base, recent);
            lemma_move_keeps_open_ground(w, id, next);
        } else if let Message::Harvested { pos, kind } = ms[0] {
            lemma_harvest_keeps_open_ground(w, pos, kind);
        }
    }
}

} // verus!
