use std::collections::VecDeque;
use vstd::prelude::*;

use crate::model::{manhattan, Grid, Message, Position, Tile, WorldState};
use crate::positions::PositionSet;

verus! {

/// Coordinates that can be stepped away from in all four directions without overflow.
pub open spec fn interior(p: Position) -> bool {
    i32::MIN < p.x < i32::MAX && i32::MIN < p.y < i32::MAX
}

/// The four orthogonal neighbours, in the order right, left, down, up.
pub open spec fn neighbor_seq(p: Position) -> Seq<Position> {
    seq![
        Position { x: (p.x + 1) as i32, y: p.y },
        Position { x: (p.x - 1) as i32, y: p.y },
        Position { x: p.x, y: (p.y + 1) as i32 },
        Position { x: p.x, y: (p.y - 1) as i32 },
    ]
}

/// The four orthogonal neighbours of a position.
pub fn neighbors(pos: Position) -> (r: [Position; 4])
    requires
        interior(pos),
    ensures
        r@ == neighbor_seq(pos),
{
    let r = [
        Position { x: pos.x + 1, y: pos.y },
        Position { x: pos.x - 1, y: pos.y },
        Position { x: pos.x, y: pos.y + 1 },
        Position { x: pos.x, y: pos.y - 1 },
    ];
    assert(r@ =~= neighbor_seq(pos));
    r
}

/// The neighbours of a position are exactly the positions at distance one from it.
pub proof fn lemma_neighbors_at_distance_one(p: Position, q: Position)
    requires
        interior(p),
    ensures
        neighbor_seq(p).contains(q) <==> manhattan(p, q) == 1,
{
    if manhattan(p, q) == 1 {
        if q.x == p.x + 1 {
            assert(neighbor_seq(p)[0] == q);
        } else if q.x == p.x - 1 {
            assert(neighbor_seq(p)[1] == q);
        } else if q.y == p.y + 1 {
            assert(neighbor_seq(p)[2] == q);
        } else {
            assert(neighbor_seq(p)[3] == q);
        }
    }
}

/// First element of a sequence that satisfies a predicate.
pub open spec fn first_where(s: Seq<Position>, f: spec_fn(Position) -> bool) -> Option<Position>
    decreases s.len(),
{
    if s.len() == 0 {
        None
    } else if f(s[0]) {
        Some(s[0])
    } else {
        first_where(s.drop_first(), f)
    }
}

/// What `first_where` picks: an element that satisfies the predicate and
/// comes before every other such element; `None` when there is none.
pub proof fn lemma_first_where(s: Seq<Position>, f: spec_fn(Position) -> bool)
    ensures
        match first_where(s, f) {
            Some(c) => exists|i: int|
                0 <= i < s.len() && s[i] == c && f(c) && forall|j: int| 0 <= j < i ==> !f(#[trigger] s[j]),
            None => forall|j: int| 0 <= j < s.len() ==> !f(#[trigger] s[j]),
        },
    decreases s.len(),
{
    if s.len() > 0 {
        lemma_first_where(s.drop_first(), f);
        if !f(s[0]) {
            match first_where(s.drop_first(), f) {
                Some(c) => {
                    let i = choose|i: int|
                        0 <= i < s.drop_first().len() && s.drop_first()[i] == c && f(c) && forall|j: int|
                            0 <= j < i ==> !f(#[trigger] s.drop_first()[j]);
                    assert(s[i + 1] == c);
                    assert forall|j: int| 0 <= j < i + 1 implies !f(#[trigger] s[j]) by {
                        if j > 0 {
                            assert(s[j] == s.drop_first()[j - 1]);
                        }
                    }
                },
                None => {
                    assert forall|j: int| 0 <= j < s.len() implies !f(#[trigger] s[j]) by {
                        if j > 0 {
                            assert(s[j] == s.drop_first()[j - 1]);
                        }
                    }
                },
            }
        }
    }
}

/// The candidate a robot picks to avoid its recent trail: the first
/// candidate not on the trail, else the first candidate, else nothing.
pub open spec fn non_repeating_choice(candidates: Seq<Position>, recent: Seq<Position>) -> Option<Position> {
    match first_where(candidates, |c: Position| !recent.contains(c)) {
        Some(c) => Some(c),
        None => if candidates.len() > 0 {
            Some(candidates[0])
        } else {
            None
        },
    }
}

/// What a robot avoiding its trail picks: when some candidate is off the
/// whole trail, the first candidate off the trail; when every candidate is
/// on it, the first candidate; with no candidates, nothing.
pub proof fn lemma_non_repeating_choice(candidates: Seq<Position>, recent: Seq<Position>)
    ensures
        candidates.len() == 0 ==> non_repeating_choice(candidates, recent) is None,
        (exists|i: int| 0 <= i < candidates.len() && !recent.contains(#[trigger] candidates[i])) ==> exists|
            k: int,
        |
            0 <= k < candidates.len() && non_repeating_choice(candidates, recent) == Some(
                #[trigger] candidates[k],
            ) && !recent.contains(candidates[k]) && forall|j: int|
                0 <= j < k ==> recent.contains(#[trigger] candidates[j]),
        candidates.len() > 0 && (forall|i: int|
            0 <= i < candidates.len() ==> recent.contains(#[trigger] candidates[i])) ==> non_repeating_choice(
            candidates,
            recent,
        ) == Some(candidates[0]),
{
    let f = |c: Position| !recent.contains(c);
    lemma_first_where(candidates, f);
    if exists|i: int| 0 <= i < candidates.len() && !recent.contains(#[trigger] candidates[i]) {
        let i = choose|i: int| 0 <= i < candidates.len() && !recent.contains(#[trigger] candidates[i]);
        assert(f(candidates[i]));
    }
}

/// Whether a deque holds a position.
fn deque_contains(d: &VecDeque<Position>, p: Position) -> (r: bool)
    ensures
        r == d@.contains(p),
{
    let n = d.len();
    for i in 0..n
        invariant
            n == d@.len(),
            forall|j: int| 0 <= j < i ==> d@[j] != p,
    {
        if d[i] == p {
            return true;
        }
    }
    false
}

/// Picks the first candidate not visited recently, falling back to the first candidate.
pub fn choose_non_repeating_position(candidates: &[Position], recent: &VecDeque<Position>) -> (r:
    Option<Position>)
    ensures
        r == non_repeating_choice(candidates@, recent@),
        r is None <==> candidates@.len() == 0,
        (exists|i: int| 0 <= i < candidates@.len() && !recent@.contains(#[trigger] candidates@[i])) ==> exists|
            k: int,
        |
            0 <= k < candidates@.len() && r == Some(#[trigger] candidates@[k]) && !recent@.contains(
                candidates@[k],
            ) && forall|j: int| 0 <= j < k ==> recent@.contains(#[trigger] candidates@[j]),
        candidates@.len() > 0 && (forall|i: int|
            0 <= i < candidates@.len() ==> recent@.contains(#[trigger] candidates@[i])) ==> r == Some(
            candidates@[0],
        ),
{
    let n = candidates.len();
    assert(candidates@.skip(0) =~= candidates@);
    for i in 0..n
        invariant
            n == candidates@.len(),
            first_where(candidates@, |c: Position| !recent@.contains(c)) == first_where(
                candidates@.skip(i as int),
                |c: Position| !recent@.contains(c),
            ),
    {
        proof {
            assert(candidates@.skip(i as int).drop_first() =~= candidates@.skip(i + 1));
        }
        if !deque_contains(recent, candidates[i]) {
            proof {
                lemma_non_repeating_choice(candidates@, recent@);
            }
            return Some(candidates[i]);
        }
    }
    assert(candidates@.skip(n as int).len() == 0);
    proof {
        lemma_non_repeating_choice(candidates@, recent@);
    }
    if n > 0 {
        Some(candidates[0])
    } else {
        None
    }
}

/// The trail after recording a position: the position is appended unless it
/// is already the newest entry, then the oldest entries are dropped until at
/// most `capacity` remain.
pub open spec fn trail_after(recent: Seq<Position>, pos: Position, capacity: int) -> Seq<Position> {
    let s = if recent.len() > 0 && recent.last() == pos {
        recent
    } else {
        recent.push(pos)
    };
    if s.len() > capacity {
        s.subrange(s.len() - capacity, s.len() as int)
    } else {
        s
    }
}

/// Keeps a short trail so a robot can avoid immediate backtracking.
pub fn push_recent_position(recent: &mut VecDeque<Position>, pos: Position, capacity: usize)
    ensures
        final(recent)@ == trail_after(old(recent)@, pos, capacity as int),
{
    let n = recent.len();
    if n == 0 || recent[n - 1] != pos {
        recent.push_back(pos);
    }
    let ghost s = recent@;
    while recent.len() > capacity
        invariant
            s.len() >= recent@.len(),
            recent@ == s.subrange(s.len() - recent@.len(), s.len() as int),
            s.len() > capacity ==> recent@.len() >= capacity,
            s.len() <= capacity ==> recent@.len() == s.len(),
        decreases recent@.len(),
    {
        recent.pop_front();
    }
    proof {
        if s.len() <= capacity {
            assert(recent@ =~= s);
        }
    }
}

/// Recording the same position twice in a row leaves the trail as recording it once.
pub proof fn lemma_trail_idempotent(recent: Seq<Position>, pos: Position, capacity: int)
    requires
        capacity >= 1,
    ensures
        trail_after(trail_after(recent, pos, capacity), pos, capacity) == trail_after(recent, pos, capacity),
        trail_after(recent, pos, capacity).len() <= capacity,
        trail_after(recent, pos, capacity).last() == pos,
{
}

/// The 3x3 block centred on a position, row by row from the top-left.
pub open spec fn window(c: Position) -> Seq<Position> {
    Seq::new(
        9,
        |i: int| Position { x: (c.x + (i % 3) - 1) as i32, y: (c.y + (i / 3) - 1) as i32 },
    )
}

/// The report a robot makes on seeing a position: an obstacle or a resource
/// not yet in its own records, and nothing otherwise.
pub open spec fn sighting(
    map: Grid,
    p: Position,
    known_obstacles: Set<Position>,
    known_resources: Set<Position>,
) -> Option<Message> {
    match map.tile(p) {
        Some(Tile::Obstacle) => if known_obstacles.contains(p) {
            None
        } else {
            Some(Message::ObstacleFound(p))
        },
        Some(Tile::Resource { kind, .. }) => if known_resources.contains(p) {
            None
        } else {
            Some(Message::ResourceFound { pos: p, kind })
        },
        _ => None,
    }
}

/// The reports made on seeing a sequence of positions, in order.
pub open spec fn sightings(
    map: Grid,
    ps: Seq<Position>,
    known_obstacles: Set<Position>,
    known_resources: Set<Position>,
) -> Seq<Message>
    decreases ps.len(),
{
    if ps.len() == 0 {
        Seq::empty()
    } else {
        let rest = sightings(map, ps.drop_last(), known_obstacles, known_resources);
        match sighting(map, ps.last(), known_obstacles, known_resources) {
            Some(m) => rest.push(m),
            None => rest,
        }
    }
}

/// The obstacles among a sequence of positions.
pub open spec fn obstacles_among(map: Grid, ps: Seq<Position>) -> Set<Position> {
    Set::new(|p: Position| ps.contains(p) && map.tile(p) == Some(Tile::Obstacle))
}

/// The resources among a sequence of positions.
pub open spec fn resources_among(map: Grid, ps: Seq<Position>) -> Set<Position> {
    Set::new(|p: Position| ps.contains(p) && map.tile(p) matches Some(Tile::Resource { .. }))
}

/// Scans the 3x3 area around a robot and records newly discovered tiles;
/// returns the reports to send, one per newly seen obstacle or resource.
pub fn discover_surroundings(
    world: &WorldState,
    center: Position,
    known_obstacles: &mut PositionSet,
    known_resources: &mut PositionSet,
) -> (messages: Vec<Message>)
    requires
        world.wf(),
        interior(center),
    ensures
        messages@ == sightings(world@.map, window(center), old(known_obstacles)@, old(known_resources)@),
        final(known_obstacles)@ == old(known_obstacles)@.union(obstacles_among(world@.map, window(center))),
        final(known_resources)@ == old(known_resources)@.union(resources_among(world@.map, window(center))),
{
    let ghost w = window(center);
    let ghost ko = known_obstacles@;
    let ghost kr = known_resources@;
    let mut messages: Vec<Message> = Vec::new();
    for k in 0..9usize
        invariant
            world.wf(),
            interior(center),
            w == window(center),
            ko == old(known_obstacles)@,
            kr == old(known_resources)@,
            messages@ == sightings(world@.map, w.take(k as int), ko, kr),
            known_obstacles@ == ko.union(obstacles_among(world@.map, w.take(k as int))),
            known_resources@ == kr.union(resources_among(world@.map, w.take(k as int))),
    {
        let dx: i32 = (k % 3) as i32 - 1;
        let dy: i32 = (k / 3) as i32 - 1;
        let pos = Position { x: center.x + dx, y: center.y + dy };
        proof {
            assert(pos == w[k as int]);
            assert(w.take(k + 1).drop_last() =~= w.take(k as int));
            assert(w.take(k + 1).last() == pos);
            assert(!w.take(k as int).contains(pos)) by {
                if w.take(k as int).contains(pos) {
                    let j = choose|j: int| 0 <= j < k && w.take(k as int)[j] == pos;
                    assert(w[j] == w[k as int]);
                }
            }
        }
        match world.map.tile_at(pos) {
            Some(Tile::Obstacle) => {
                if known_obstacles.insert(pos) {
                    messages.push(Message::ObstacleFound(pos));
                }
            },
            Some(Tile::Resource { kind, .. }) => {
                if known_resources.insert(pos) {
                    messages.push(Message::ResourceFound { pos, kind: *kind });
                }
            },
            _ => {},
        }
        proof {
            assert(known_obstacles@ =~= ko.union(obstacles_among(world@.map, w.take(k + 1))));
            assert(known_resources@ =~= kr.union(resources_among(world@.map, w.take(k + 1))));
        }
    }
    proof {
        assert(w.take(9) =~= w);
    }
    messages
}

/// Reports are made once: scanning the same area again with the updated
/// records yields no report.
pub proof fn lemma_sightings_reported_once(
    map: Grid,
    ps: Seq<Position>,
    known_obstacles: Set<Position>,
    known_resources: Set<Position>,
)
    ensures
        sightings(
            map,
            ps,
            known_obstacles.union(obstacles_among(map, ps)),
            known_resources.union(resources_among(map, ps)),
        ).len() == 0,
    decreases ps.len(),
{
    if ps.len() > 0 {
        let p = ps.last();
        let q = ps.drop_last();
        lemma_sightings_reported_once(map, q, known_obstacles, known_resources);
        lemma_sightings_monotone(
            map,
            q,
            known_obstacles.union(obstacles_among(map, q)),
            known_resources.union(resources_among(map, q)),
            known_obstacles.union(obstacles_among(map, ps)),
            known_resources.union(resources_among(map, ps)),
        );
        assert(ps.contains(p));
    }
}

/// Sightings only report found obstacles and resources.
pub proof fn lemma_sightings_are_found_reports(
    map: Grid,
    ps: Seq<Position>,
    known_obstacles: Set<Position>,
    known_resources: Set<Position>,
)
    ensures
        forall|i: int|
            0 <= i < sightings(map, ps, known_obstacles, known_resources).len() ==> (
            #[trigger] sightings(map, ps, known_obstacles, known_resources)[i] is ObstacleFound
                || sightings(map, ps, known_obstacles, known_resources)[i] is ResourceFound),
    decreases ps.len(),
{
    if ps.len() > 0 {
        lemma_sightings_are_found_reports(map, ps.drop_last(), known_obstacles, known_resources);
    }
}

/// Larger records give no more reports than smaller ones.
pub proof fn lemma_sightings_monotone(
    map: Grid,
    ps: Seq<Position>,
    ko1: Set<Position>,
    kr1: Set<Position>,
    ko2: Set<Position>,
    kr2: Set<Position>,
)
    requires
        ko1.subset_of(ko2),
        kr1.subset_of(kr2),
    ensures
        sightings(map, ps, ko1, kr1).len() == 0 ==> sightings(map, ps, ko2, kr2).len() == 0,
    decreases ps.len(),
{
    if ps.len() > 0 {
        lemma_sightings_monotone(map, ps.drop_last(), ko1, kr1, ko2, kr2);
    }
}

/// A passable tile next to ground the robot has not seen yet.
pub open spec fn is_frontier(map: Grid, known_tiles: Set<Position>, p: Position) -> bool {
    &&& map.passable(p)
    &&& exists|i: int|
        0 <= i < 4 && map.contains(#[trigger] neighbor_seq(p)[i]) && !known_tiles.contains(
            neighbor_seq(p)[i],
        )
}

/// Whether a tile borders unexplored ground.
pub fn is_frontier_tile(world: &WorldState, known_tiles: &PositionSet, pos: Position) -> (r: bool)
    requires
        world.wf(),
    ensures
        r == is_frontier(world@.map, known_tiles@, pos),
{
    if !world.map.is_passable(pos) {
        return false;
    }
    let ns = neighbors(pos);
    for i in 0..4usize
        invariant
            world.wf(),
            world@.map.passable(pos),
            ns@ == neighbor_seq(pos),
            forall|j: int|
                0 <= j < i ==> !(world@.map.contains(#[trigger] neighbor_seq(pos)[j])
                    && !known_tiles@.contains(neighbor_seq(pos)[j])),
    {
        if world.map.in_bounds(ns[i]) && !known_tiles.contains(ns[i]) {
            assert(neighbor_seq(pos)[i as int] == ns@[i as int]);
            return true;
        }
    }
    false
}

/// Sign of an integer: -1, 0 or 1.
pub open spec fn sign(d: int) -> int {
    if d > 0 {
        1
    } else if d < 0 {
        -1
    } else {
        0
    }
}

/// The moves a robot tries first on its way to a target: horizontally,
/// vertically, then diagonally towards it.
pub open spec fn preferred_steps(from: Position, target: Position) -> Seq<Position> {
    let dx = sign(target.x - from.x);
    let dy = sign(target.y - from.y);
    seq![
        Position { x: (from.x + dx) as i32, y: from.y },
        Position { x: from.x, y: (from.y + dy) as i32 },
        Position { x: (from.x + dx) as i32, y: (from.y + dy) as i32 },
    ]
}

/// The passable positions of a sequence, in order.
pub open spec fn passable_among(map: Grid, s: Seq<Position>) -> Seq<Position>
    decreases s.len(),
{
    if s.len() == 0 {
        Seq::empty()
    } else if map.passable(s.last()) {
        passable_among(map, s.drop_last()).push(s.last())
    } else {
        passable_among(map, s.drop_last())
    }
}

/// A move with no target: to a passable neighbour chosen to avoid the
/// trail, or nowhere when none is passable.
pub open spec fn drift(map: Grid, from: Position, recent: Seq<Position>) -> Position {
    match non_repeating_choice(passable_among(map, neighbor_seq(from)), recent) {
        Some(c) => c,
        None => from,
    }
}

/// Whether a move is open: it leaves `from` for a passable tile (off the
/// trail, when `avoid_recent` holds).
pub open spec fn open_step(map: Grid, from: Position, recent: Seq<Position>, avoid_recent: bool, c: Position) -> bool {
    c != from && map.passable(c) && (avoid_recent ==> !recent.contains(c))
}

/// Where a robot at `from` heading for `target` moves next: the first
/// preferred move onto a passable tile off its recent trail; else the first
/// preferred move onto a passable tile; else a passable neighbour chosen to
/// avoid the trail; else it stays.
pub open spec fn step_toward(map: Grid, from: Position, target: Position, recent: Seq<Position>) -> Position {
    let pref = preferred_steps(from, target);
    match first_where(pref, |c: Position| open_step(map, from, recent, true, c)) {
        Some(c) => c,
        None => match first_where(pref, |c: Position| open_step(map, from, recent, false, c)) {
            Some(c) => c,
            None => drift(map, from, recent),
        },
    }
}

/// Whether `q` is `p` or one of the eight cells around it.
pub open spec fn within_one(p: Position, q: Position) -> bool {
    -1 <= q.x - p.x <= 1 && -1 <= q.y - p.y <= 1
}

/// Picks the first of the preferred moves that is passable and differs from `from`
/// (and, when `avoid_recent` holds, is off the trail).
fn first_open_step(
    world: &WorldState,
    from: Position,
    preferred: &[Position; 3],
    recent: &VecDeque<Position>,
    avoid_recent: bool,
) -> (r: Option<Position>)
    requires
        world.wf(),
    ensures
        r == first_where(preferred@, |c: Position| open_step(world@.map, from, recent@, avoid_recent, c)),
{
    assert(preferred@.skip(0) =~= preferred@);
    for i in 0..3usize
        invariant
            world.wf(),
            first_where(preferred@, |c: Position| open_step(world@.map, from, recent@, avoid_recent, c))
                == first_where(
                preferred@.skip(i as int),
                |c: Position| open_step(world@.map, from, recent@, avoid_recent, c),
            ),
    {
        proof {
            assert(preferred@.skip(i as int).drop_first() =~= preferred@.skip(i + 1));
        }
        let c = preferred[i];
        if c != from && world.map.is_passable(c) && (!avoid_recent || !deque_contains(recent, c)) {
            return Some(c);
        }
    }
    assert(preferred@.skip(3).len() == 0);
    None
}

/// Steps towards a target while avoiding immediate backtracking.
pub fn step_towards_avoiding_recent(
    world: &WorldState,
    from: Position,
    target: Position,
    recent: &VecDeque<Position>,
) -> (next: Position)
    requires
        world.wf(),
        interior(from),
        i32::MIN <= target.x - from.x <= i32::MAX,
        i32::MIN <= target.y - from.y <= i32::MAX,
    ensures
        next == step_toward(world@.map, from, target, recent@),
        next == from || (world@.map.passable(next) && within_one(from, next)),
        forall|n: Position|
            #[trigger] neighbor_seq(from).contains(n) && world@.map.passable(n) && !recent@.contains(n)
                && manhattan(n, target) < manhattan(from, target) ==> manhattan(next, target) < manhattan(
                from,
                target,
            ),
{
    proof {
        assert forall|n: Position|
            #[trigger] neighbor_seq(from).contains(n) && world@.map.passable(n) && !recent@.contains(n)
                && manhattan(n, target) < manhattan(from, target) implies manhattan(
            step_toward(world@.map, from, target, recent@),
            target,
        ) < manhattan(from, target) by {
            lemma_step_toward_approaches(world@.map, from, target, recent@, n);
        }
    }
    let ddx = target.x - from.x;
    let ddy = target.y - from.y;
    let dx: i32 = if ddx > 0 { 1 } else if ddx < 0 { -1 } else { 0 };
    let dy: i32 = if ddy > 0 { 1 } else if ddy < 0 { -1 } else { 0 };
    let preferred = [
        Position { x: from.x + dx, y: from.y },
        Position { x: from.x, y: from.y + dy },
        Position { x: from.x + dx, y: from.y + dy },
    ];
    assert(preferred@ =~= preferred_steps(from, target));
    let ghost map = world@.map;
    proof {
        lemma_step_toward_local(map, from, target, recent@);
    }
    if let Some(candidate) = first_open_step(world, from, &preferred, recent, true) {
        return candidate;
    }
    if let Some(candidate) = first_open_step(world, from, &preferred, recent, false) {
        return candidate;
    }
    proof {
        lemma_step_toward_local(map, from, target, recent@);
    }
    drift_step(world, from, recent)
}

/// Moves to a passable neighbour off the recent trail when there is one,
/// else to the first passable neighbour, else stays.
pub fn drift_step(world: &WorldState, from: Position, recent: &VecDeque<Position>) -> (next: Position)
    requires
        world.wf(),
        interior(from),
    ensures
        next == drift(world@.map, from, recent@),
        next == from || (world@.map.passable(next) && manhattan(from, next) == 1),
{
    let ghost map = world@.map;
    let ns = neighbors(from);
    let mut passable_neighbors: Vec<Position> = Vec::new();
    for i in 0..4usize
        invariant
            world.wf(),
            ns@ == neighbor_seq(from),
            passable_neighbors@ == passable_among(world@.map, ns@.take(i as int)),
    {
        proof {
            assert(ns@.take(i + 1).drop_last() =~= ns@.take(i as int));
        }
        if world.map.is_passable(ns[i]) {
            passable_neighbors.push(ns[i]);
        }
    }
    proof {
        assert(ns@.take(4) =~= ns@);
        lemma_drift_local(map, from, recent@);
    }
    match choose_non_repeating_position(passable_neighbors.as_slice(), recent) {
        Some(p) => p,
        None => from,
    }
}

/// A drifting robot stays put or moves one orthogonal step onto a passable tile.
pub proof fn lemma_drift_local(map: Grid, from: Position, recent: Seq<Position>)
    requires
        interior(from),
    ensures
        drift(map, from, recent) == from || (map.passable(drift(map, from, recent)) && manhattan(
            from,
            drift(map, from, recent),
        ) == 1),
{
    let cands = passable_among(map, neighbor_seq(from));
    lemma_passable_among(map, neighbor_seq(from));
    lemma_first_where(cands, |c: Position| !recent.contains(c));
    let next = drift(map, from, recent);
    if next != from {
        let k = if first_where(cands, |c: Position| !recent.contains(c)) is Some {
            choose|i: int| 0 <= i < cands.len() && cands[i] == next
        } else {
            0
        };
        assert(cands[k] == next);
        assert(neighbor_seq(from).contains(next));
        lemma_neighbors_at_distance_one(from, next);
    }
}

/// A robot following `step_toward` stays put or moves onto a passable tile
/// among the eight around it.
pub proof fn lemma_step_toward_local(map: Grid, from: Position, target: Position, recent: Seq<Position>)
    requires
        interior(from),
        i32::MIN <= target.x - from.x <= i32::MAX,
        i32::MIN <= target.y - from.y <= i32::MAX,
    ensures
        ({
            let next = step_toward(map, from, target, recent);
            next == from || (map.passable(next) && within_one(from, next))
        }),
{
    let pref = preferred_steps(from, target);
    lemma_first_where(pref, |c: Position| open_step(map, from, recent, true, c));
    lemma_first_where(pref, |c: Position| open_step(map, from, recent, false, c));
    lemma_drift_local(map, from, recent);
}

/// Every preferred move that leaves `from` brings the robot strictly closer
/// to its target.
pub proof fn lemma_preferred_steps_approach(from: Position, target: Position)
    requires
        interior(from),
    ensures
        forall|i: int|
            0 <= i < 3 && #[trigger] preferred_steps(from, target)[i] != from ==> manhattan(
                preferred_steps(from, target)[i],
                target,
            ) < manhattan(from, target),
{
}

/// A robot heading for a target gets strictly closer to it whenever it
/// can: if some orthogonal neighbour of `from` that is closer to the target
/// is passable and off the trail, the move leads closer to the target.
pub proof fn lemma_step_toward_approaches(
    map: Grid,
    from: Position,
    target: Position,
    recent: Seq<Position>,
    n: Position,
)
    requires
        interior(from),
        neighbor_seq(from).contains(n),
        map.passable(n),
        !recent.contains(n),
        manhattan(n, target) < manhattan(from, target),
    ensures
        manhattan(step_toward(map, from, target, recent), target) < manhattan(from, target),
{
    let pref = preferred_steps(from, target);
    let f = |c: Position| open_step(map, from, recent, true, c);
    lemma_preferred_steps_approach(from, target);
    let k = choose|k: int| 0 <= k < 4 && neighbor_seq(from)[k] == n;
    assert(pref[0] == n || pref[1] == n) by {
        assert(n == neighbor_seq(from)[k]);
    }
    assert(n != from) by {
        assert(n == neighbor_seq(from)[k]);
    }
    assert(f(n));
    lemma_first_where(pref, f);
    if pref[0] == n {
        assert(f(pref[0]));
    } else {
        assert(f(pref[1]));
    }
    let c = first_where(pref, f).unwrap();
    let i = choose|i: int| 0 <= i < pref.len() && pref[i] == c && f(c) && forall|j: int| 0 <= j < i ==> !f(#[trigger] pref[j]);
    assert(pref[i] != from);
}

/// The passable positions kept from a sequence are passable members of it.
pub proof fn lemma_passable_among(map: Grid, s: Seq<Position>)
    ensures
        forall|i: int|
            0 <= i < passable_among(map, s).len() ==> map.passable(#[trigger] passable_among(map, s)[i])
                && s.contains(passable_among(map, s)[i]),
    decreases s.len(),
{
    if s.len() > 0 {
        lemma_passable_among(map, s.drop_last());
        assert forall|i: int| 0 <= i < passable_among(map, s).len() implies map.passable(
            #[trigger] passable_among(map, s)[i],
        ) && s.contains(passable_among(map, s)[i]) by {
            if i < passable_among(map, s.drop_last()).len() {
                let j = choose|j: int| 0 <= j < s.drop_last().len() && s.drop_last()[j] == passable_among(map, s)[i];
                assert(s[j] == passable_among(map, s)[i]);
            } else {
                assert(s[s.len() - 1] == passable_among(map, s)[i]);
            }
        }
    }
}

} // verus!
