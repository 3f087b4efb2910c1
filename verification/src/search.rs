use std::collections::{HashMap, VecDeque};
use vstd::prelude::*;
use vstd::set_lib::set_int_range;

use crate::model::{lemma_index_in_range, lemma_index_injective, manhattan, Grid, Position, WorldState};
use crate::positions::{lemma_pos_key_injective, pos_key, position_key};
use crate::simulation::{interior, lemma_neighbors_at_distance_one, neighbor_seq, neighbors};

verus! {

broadcast use vstd::std_specs::hash::group_hash_axioms;

/// One move of a robot: to an orthogonally adjacent, passable tile.
pub open spec fn step(map: Grid, p: Position, q: Position) -> bool {
    manhattan(p, q) == 1 && map.passable(q)
}

/// A walk: a non-empty sequence of positions, each a move from the one before.
pub open spec fn is_walk(map: Grid, path: Seq<Position>) -> bool {
    &&& path.len() >= 1
    &&& forall|i: int| 0 <= i < path.len() - 1 ==> step(map, #[trigger] path[i], path[i + 1])
}

/// A walk from `start` that ends somewhere else.
pub open spec fn is_walk_away(map: Grid, start: Position, path: Seq<Position>) -> bool {
    is_walk(map, path) && path[0] == start && path.last() != start
}

/// Index of the move from `p` to `q` in the neighbour order right, left,
/// down, up (3 for anything that is none of the first three).
pub open spec fn direction(p: Position, q: Position) -> int {
    if q == neighbor_seq(p)[0] {
        0
    } else if q == neighbor_seq(p)[1] {
        1
    } else if q == neighbor_seq(p)[2] {
        2
    } else {
        3
    }
}

/// The directions of the moves of a walk, in order.
pub open spec fn directions(path: Seq<Position>) -> Seq<int> {
    Seq::new((path.len() - 1) as nat, |i: int| direction(path[i], path[i + 1]))
}

/// Lexicographic order on direction sequences of the same length.
pub open spec fn lex_less(a: Seq<int>, b: Seq<int>) -> bool {
    &&& a.len() == b.len()
    &&& exists|i: int|
        0 <= i < a.len() && a[i] < b[i] && forall|j: int| 0 <= j < i ==> #[trigger] a[j] == b[j]
}

/// The order in which breadth-first search meets walks from a common start:
/// shorter walks first, and walks of one length by their directions.
#[verifier::opaque]
pub open spec fn walk_before(a: Seq<Position>, b: Seq<Position>) -> bool {
    a.len() < b.len() || (a.len() == b.len() && lex_less(directions(a), directions(b)))
}

/// The neighbours of an interior position lie in four distinct directions.
pub proof fn lemma_direction_of_neighbor(p: Position, k: int)
    requires
        interior(p),
        0 <= k < 4,
    ensures
        direction(p, neighbor_seq(p)[k]) == k,
{
}

/// Extending a walk appends one direction.
pub proof fn lemma_directions_push(path: Seq<Position>, x: Position)
    requires
        path.len() >= 1,
    ensures
        directions(path.push(x)) == directions(path).push(direction(path.last(), x)),
{
    assert(directions(path.push(x)) =~= directions(path).push(direction(path.last(), x)));
}

/// `walk_before` is a strict order.
pub proof fn lemma_walk_before_order(a: Seq<Position>, b: Seq<Position>, c: Seq<Position>)
    ensures
        !walk_before(a, a),
        walk_before(a, b) ==> !walk_before(b, a),
        walk_before(a, b) && walk_before(b, c) ==> walk_before(a, c),
        a.len() < b.len() ==> walk_before(a, b),
{
    reveal(walk_before);
    let (da, db, dc) = (directions(a), directions(b), directions(c));
    if lex_less(da, da) {
        let i = choose|i: int| 0 <= i < da.len() && da[i] < da[i] && forall|j: int| 0 <= j < i ==> #[trigger] da[j] == da[j];
    }
    if a.len() == b.len() && lex_less(da, db) && lex_less(db, da) {
        let i = choose|i: int| 0 <= i < da.len() && da[i] < db[i] && forall|j: int| 0 <= j < i ==> #[trigger] da[j] == db[j];
        let k = choose|k: int| 0 <= k < db.len() && db[k] < da[k] && forall|j: int| 0 <= j < k ==> #[trigger] db[j] == da[j];
        if i < k {
            assert(db[i] == da[i]);
        } else if k < i {
            assert(da[k] == db[k]);
        }
    }
    if a.len() == b.len() && b.len() == c.len() && lex_less(da, db) && lex_less(db, dc) {
        let i = choose|i: int| 0 <= i < da.len() && da[i] < db[i] && forall|j: int| 0 <= j < i ==> #[trigger] da[j] == db[j];
        let k = choose|k: int| 0 <= k < db.len() && db[k] < dc[k] && forall|j: int| 0 <= j < k ==> #[trigger] db[j] == dc[j];
        let m = if i < k { i } else { k };
        assert(da[m] < dc[m]);
        assert forall|j: int| 0 <= j < m implies #[trigger] da[j] == dc[j] by {
            assert(da[j] == db[j]);
            assert(db[j] == dc[j]);
        }
    }
}

/// Extending two walks keeps their order, whatever the last moves, and a
/// walk comes before each of its extensions.
pub proof fn lemma_walk_before_push(a: Seq<Position>, b: Seq<Position>, x: Position, y: Position)
    requires
        a.len() >= 1,
        b.len() >= 1,
    ensures
        walk_before(a, b) ==> walk_before(a.push(x), b.push(y)),
        walk_before(a, a.push(x)),
        a == b && direction(a.last(), x) < direction(b.last(), y) ==> walk_before(a.push(x), b.push(y)),
{
    reveal(walk_before);
    lemma_directions_push(a, x);
    lemma_directions_push(b, y);
    let (da, db) = (directions(a), directions(b));
    let (dax, dby) = (directions(a.push(x)), directions(b.push(y)));
    if a.len() == b.len() && lex_less(da, db) {
        let i = choose|i: int| 0 <= i < da.len() && da[i] < db[i] && forall|j: int| 0 <= j < i ==> #[trigger] da[j] == db[j];
        assert(dax[i] < dby[i]);
        assert forall|j: int| 0 <= j < i implies #[trigger] dax[j] == dby[j] by {
            assert(da[j] == db[j]);
        }
    }
    if a == b && direction(a.last(), x) < direction(b.last(), y) {
        let i = da.len() as int;
        assert(dax[i] < dby[i]);
        assert forall|j: int| 0 <= j < i implies #[trigger] dax[j] == dby[j] by {
            assert(dax[j] == da[j]);
        }
    }
}

/// Passable tiles lie on the map away from the coordinate limits.
pub proof fn lemma_passable_interior(map: Grid, p: Position)
    requires
        map.wf(),
        map.passable(p),
    ensures
        interior(p),
        map.contains(p),
{
}

/// Whether the search has reached a position.
pub open spec fn seen(came_from: Map<u64, Position>, p: Position) -> bool {
    came_from.contains_key(pos_key(p))
}

/// The parent links of the search form a tree of moves rooted at `start`,
/// with depths `dist`.
pub open spec fn tree_inv(
    map: Grid,
    start: Position,
    came_from: Map<u64, Position>,
    dist: Map<Position, nat>,
) -> bool {
    &&& seen(came_from, start)
    &&& came_from[pos_key(start)] == start
    &&& dist.contains_key(start) && dist[start] == 0
    &&& forall|p: Position| #[trigger]
        seen(came_from, p) ==> dist.contains_key(p) && (p == start || map.passable(p))
    &&& forall|p: Position|
        #![trigger came_from[pos_key(p)]]
        seen(came_from, p) && p != start ==> {
            let q = came_from[pos_key(p)];
            &&& seen(came_from, q)
            &&& dist[q] + 1 == dist[p]
            &&& step(map, q, p)
        }
}

/// `vis` numbers exactly the reached cells of the map.
pub open spec fn vis_inv(map: Grid, came_from: Map<u64, Position>, vis: Set<int>) -> bool {
    &&& vis.finite()
    &&& vis.subset_of(set_int_range(0, map.tiles.len() as int))
    &&& forall|p: Position|
        map.contains(p) ==> (vis.contains(#[trigger] map.index_of(p)) <==> seen(came_from, p))
}

/// The queue holds reached, unclosed positions, each once.
pub open spec fn queue_inv(came_from: Map<u64, Position>, queue: Seq<Position>, closed: Set<Position>) -> bool {
    &&& queue.no_duplicates()
    &&& forall|i: int|
        0 <= i < queue.len() ==> seen(came_from, #[trigger] queue[i]) && !closed.contains(queue[i])
    &&& forall|p: Position| #[trigger] closed.contains(p) ==> seen(came_from, p)
}

/// `a` comes before `b` in search order, or is `b`.
pub open spec fn walk_not_after(a: Seq<Position>, b: Seq<Position>) -> bool {
    a == b || walk_before(a, b)
}

/// Each reached position has a tree walk `tw`: the walk from `start` along
/// the parent links, one position longer than its depth.
pub open spec fn walks_inv(
    map: Grid,
    start: Position,
    came_from: Map<u64, Position>,
    dist: Map<Position, nat>,
    tw: Map<Position, Seq<Position>>,
) -> bool {
    &&& forall|p: Position| #[trigger]
        seen(came_from, p) ==> {
            &&& tw.contains_key(p)
            &&& is_walk(map, tw[p])
            &&& tw[p][0] == start
            &&& tw[p].last() == p
            &&& tw[p].len() == dist[p] + 1
        }
    &&& forall|p: Position|
        #![trigger came_from[pos_key(p)]]
        seen(came_from, p) && p != start ==> tw[p] == tw[came_from[pos_key(p)]].push(p)
}

/// What holds of a closed position: the goal test answered no there unless
/// it is the start, and every move from it leads to a reached position
/// whose tree walk comes no later than the walk through it.
pub open spec fn closed_ok<F: Fn(Position) -> bool>(
    map: Grid,
    start: Position,
    came_from: Map<u64, Position>,
    tw: Map<Position, Seq<Position>>,
    closed: Set<Position>,
    is_goal: F,
) -> bool {
    forall|p: Position| #[trigger]
        closed.contains(p) ==> (p != start ==> is_goal.ensures((p,), false)) && forall|q: Position|
            step(map, p, q) ==> seen(came_from, q) && walk_not_after(tw[q], tw[p].push(q))
}

/// The queue is in search order, and closed positions come before queued ones.
pub open spec fn search_order(tw: Map<Position, Seq<Position>>, queue: Seq<Position>, closed: Set<Position>) -> bool {
    &&& forall|i: int, j: int|
        0 <= i < j < queue.len() ==> walk_before(tw[#[trigger] queue[i]], tw[#[trigger] queue[j]])
    &&& forall|c: Position, i: int|
        #[trigger] closed.contains(c) && 0 <= i < queue.len() ==> walk_before(tw[c], tw[#[trigger] queue[i]])
}

/// A set of reached positions closed under moves holds every walk from its root.
pub proof fn lemma_closed_holds_walks<F: Fn(Position) -> bool>(
    map: Grid,
    start: Position,
    came_from: Map<u64, Position>,
    tw: Map<Position, Seq<Position>>,
    closed: Set<Position>,
    is_goal: F,
    path: Seq<Position>,
    n: int,
)
    requires
        closed_ok(map, start, came_from, tw, closed, is_goal),
        forall|p: Position| #[trigger] seen(came_from, p) ==> closed.contains(p),
        seen(came_from, start),
        is_walk(map, path),
        path[0] == start,
        0 <= n < path.len(),
    ensures
        seen(came_from, path[n]),
    decreases n,
{
    if n > 0 {
        lemma_closed_holds_walks(map, start, came_from, tw, closed, is_goal, path, n - 1);
        assert(step(map, path[n - 1], path[n]));
        assert(closed.contains(path[n - 1]));
    }
}

/// When a position leaves the queue, every walk from the start that comes
/// before its tree walk ends at a closed position, whose tree walk comes no
/// later than that walk.
pub proof fn lemma_earlier_walks_closed<F: Fn(Position) -> bool>(
    map: Grid,
    start: Position,
    came_from: Map<u64, Position>,
    dist: Map<Position, nat>,
    tw: Map<Position, Seq<Position>>,
    queue: Seq<Position>,
    closed: Set<Position>,
    current: Position,
    is_goal: F,
    path: Seq<Position>,
    n: int,
)
    requires
        tree_inv(map, start, came_from, dist),
        walks_inv(map, start, came_from, dist, tw),
        closed_ok(map, start, came_from, tw, closed, is_goal),
        forall|p: Position| #[trigger] closed.contains(p) ==> seen(came_from, p),
        closed.contains(start),
        seen(came_from, current),
        forall|p: Position| #[trigger]
            seen(came_from, p) ==> queue.contains(p) || closed.contains(p) || p == current,
        forall|i: int| 0 <= i < queue.len() ==> walk_before(tw[current], tw[#[trigger] queue[i]]),
        is_walk(map, path),
        path[0] == start,
        0 <= n < path.len(),
        walk_before(path.take(n + 1), tw[current]),
    ensures
        closed.contains(path[n]),
        walk_not_after(tw[path[n]], path.take(n + 1)),
    decreases n,
{
    let w = path[n];
    if n == 0 {
        assert(path.take(1) =~= seq![start]);
        assert(tw[start] =~= seq![start]);
    } else {
        let prev = path.take(n);
        assert(path.take(n + 1) =~= prev.push(w));
        lemma_walk_before_push(prev, prev, w, w);
        lemma_walk_before_order(prev, path.take(n + 1), tw[current]);
        lemma_earlier_walks_closed(
            map,
            start,
            came_from,
            dist,
            tw,
            queue,
            closed,
            current,
            is_goal,
            path,
            n - 1,
        );
        let v = path[n - 1];
        assert(prev.last() == v);
        assert(step(map, v, w));
        assert(seen(came_from, w) && walk_not_after(tw[w], tw[v].push(w)));
        lemma_walk_before_push(tw[v], prev, w, w);
        lemma_walk_before_order(tw[w], tw[v].push(w), prev.push(w));
        assert(walk_not_after(tw[w], path.take(n + 1)));
        lemma_walk_before_order(tw[w], path.take(n + 1), tw[current]);
        assert(walk_before(tw[w], tw[current]));
        lemma_walk_before_order(tw[current], tw[current], tw[current]);
        if queue.contains(w) {
            let k = choose|k: int| 0 <= k < queue.len() && queue[k] == w;
            lemma_walk_before_order(tw[w], tw[current], tw[queue[k]]);
        }
    }
}

/// The bookkeeping while the moves from `current` are examined, the first
/// `i` of them done.
#[verifier::opaque]
pub open spec fn expand_inv<F: Fn(Position) -> bool>(
    map: Grid,
    start: Position,
    came_from: Map<u64, Position>,
    dist: Map<Position, nat>,
    tw: Map<Position, Seq<Position>>,
    vis: Set<int>,
    queue: Seq<Position>,
    closed: Set<Position>,
    current: Position,
    i: int,
    is_goal: F,
) -> bool {
    let ns = neighbor_seq(current);
    &&& map.wf()
    &&& interior(current)
    &&& seen(came_from, current)
    &&& !closed.contains(current)
    &&& !queue.contains(current)
    &&& (current == start || closed.contains(start))
    &&& (current != start ==> is_goal.ensures((current,), false))
    &&& tree_inv(map, start, came_from, dist)
    &&& walks_inv(map, start, came_from, dist, tw)
    &&& vis_inv(map, came_from, vis)
    &&& queue_inv(came_from, queue, closed)
    &&& forall|p: Position| #[trigger]
        seen(came_from, p) ==> queue.contains(p) || closed.contains(p) || p == current
    &&& forall|p: Position|
        #![trigger came_from[pos_key(p)]]
        seen(came_from, p) && p != start ==> closed.contains(came_from[pos_key(p)])
            || came_from[pos_key(p)] == current
    &&& closed_ok(map, start, came_from, tw, closed, is_goal)
    &&& forall|a: int, b: int|
        0 <= a < b < queue.len() ==> walk_before(tw[#[trigger] queue[a]], tw[#[trigger] queue[b]])
    &&& forall|c: Position| #[trigger] closed.contains(c) ==> walk_before(tw[c], tw[current])
    &&& forall|j: int| 0 <= j < queue.len() ==> walk_before(tw[current], tw[#[trigger] queue[j]])
    &&& forall|k: int, j: int|
        i <= k < 4 && 0 <= j < queue.len() ==> walk_before(
            tw[#[trigger] queue[j]],
            tw[current].push(#[trigger] ns[k]),
        )
    &&& forall|j: int|
        0 <= j < i && map.passable(#[trigger] ns[j]) ==> seen(came_from, ns[j]) && walk_not_after(
            tw[ns[j]],
            tw[current].push(ns[j]),
        )
}

/// Reaching a new neighbour keeps the bookkeeping, and numbers one more cell.
#[verifier::spinoff_prover]
#[verifier::rlimit(50)]
pub proof fn lemma_expand_insert<F: Fn(Position) -> bool>(
    map: Grid,
    start: Position,
    came_from: Map<u64, Position>,
    dist: Map<Position, nat>,
    tw: Map<Position, Seq<Position>>,
    vis: Set<int>,
    queue: Seq<Position>,
    closed: Set<Position>,
    current: Position,
    i: int,
    is_goal: F,
)
    requires
        expand_inv(map, start, came_from, dist, tw, vis, queue, closed, current, i, is_goal),
        0 <= i < 4,
        map.passable(neighbor_seq(current)[i]),
        !seen(came_from, neighbor_seq(current)[i]),
    ensures
        ({
            let n = neighbor_seq(current)[i];
            &&& !vis.contains(map.index_of(n))
            &&& vis.insert(map.index_of(n)).len() == vis.len() + 1
            &&& vis.insert(map.index_of(n)).len() <= map.tiles.len()
            &&& expand_inv(
                map,
                start,
                came_from.insert(pos_key(n), current),
                dist.insert(n, dist[current] + 1),
                tw.insert(n, tw[current].push(n)),
                vis.insert(map.index_of(n)),
                queue.push(n),
                closed,
                current,
                i + 1,
                is_goal,
            )
        }),
{
    reveal(expand_inv);
    let ns = neighbor_seq(current);
    let n = ns[i];
    let wh = map.tiles.len() as int;
    lemma_direction_of_neighbor(current, i);
    lemma_passable_interior(map, n);
    lemma_index_in_range(map, n);
    lemma_neighbors_at_distance_one(current, n);
    assert(!queue.contains(n));
    let cf = came_from.insert(pos_key(n), current);
    let dist2 = dist.insert(n, dist[current] + 1);
    let tw2 = tw.insert(n, tw[current].push(n));
    let vis2 = vis.insert(map.index_of(n));
    let q2 = queue.push(n);
    vstd::set_lib::lemma_int_range(0, wh);
    vstd::set_lib::lemma_len_subset(vis2, set_int_range(0, wh));
    assert forall|p: Position| #[trigger] seen(cf, p) <==> (seen(came_from, p) || p == n) by {
        if pos_key(p) == pos_key(n) {
            lemma_pos_key_injective(p, n);
        }
    }
    assert forall|p: Position| map.contains(p) implies (vis2.contains(#[trigger] map.index_of(p))
        <==> seen(cf, p)) by {
        if map.index_of(p) == map.index_of(n) {
            lemma_index_injective(map, p, n);
        }
    }
    assert forall|p: Position| seen(cf, p) && p != start implies {
        let q = #[trigger] cf[pos_key(p)];
        &&& seen(cf, q)
        &&& dist2[q] + 1 == dist2[p]
        &&& step(map, q, p)
    } by {
        if p != n {
            assert(pos_key(p) != pos_key(n));
        }
    }
    assert(is_walk(map, tw2[n])) by {
        let w = tw2[n];
        assert forall|k: int| 0 <= k < w.len() - 1 implies step(map, #[trigger] w[k], w[k + 1]) by {
            if k < w.len() - 2 {
                assert(w[k] == tw[current][k]);
                assert(w[k + 1] == tw[current][k + 1]);
            }
        }
    }
    assert forall|p: Position| seen(cf, p) && p != start implies #[trigger] tw2[p] == tw2[cf[pos_key(p)]].push(p) by {
        if p != n {
            assert(pos_key(p) != pos_key(n));
        }
    }
    assert forall|p: Position| seen(cf, p) && p != start implies closed.contains(#[trigger] cf[pos_key(p)])
        || cf[pos_key(p)] == current by {
        if p != n {
            assert(pos_key(p) != pos_key(n));
        }
    }
    assert forall|p: Position| #[trigger] seen(cf, p) implies q2.contains(p) || closed.contains(p)
        || p == current by {
        if p == n {
            assert(q2[queue.len() as int] == n);
        } else if queue.contains(p) {
            let k = choose|k: int| 0 <= k < queue.len() && queue[k] == p;
            assert(q2[k] == p);
        }
    }
    assert(!q2.contains(current)) by {
        if q2.contains(current) {
            let k = choose|k: int| 0 <= k < q2.len() && q2[k] == current;
            if k < queue.len() {
                assert(queue[k] == current);
            }
        }
    }
    assert forall|a: int, b: int| 0 <= a < b < q2.len() implies q2[a] != q2[b] by {
        if b == queue.len() {
            assert(seen(came_from, queue[a]));
        } else {
            assert(queue[a] != queue[b]);
        }
    }
    assert forall|a: int, b: int|
        0 <= a < b < q2.len() implies walk_before(tw2[#[trigger] q2[a]], tw2[#[trigger] q2[b]]) by {
        if b == queue.len() {
            assert(walk_before(tw[queue[a]], tw[current].push(ns[i])));
        }
    }
    assert forall|k: int, j: int|
        i + 1 <= k < 4 && 0 <= j < q2.len() implies walk_before(
            tw2[#[trigger] q2[j]],
            tw2[current].push(#[trigger] ns[k]),
        ) by {
        if j == queue.len() {
            lemma_direction_of_neighbor(current, k);
            lemma_walk_before_push(tw[current], tw[current], n, ns[k]);
        } else {
            assert(q2[j] == queue[j]);
        }
    }
    assert forall|j: int| 0 <= j < q2.len() implies walk_before(tw2[current], tw2[#[trigger] q2[j]]) by {
        if j == queue.len() {
            lemma_walk_before_push(tw[current], tw[current], n, n);
        } else {
            assert(q2[j] == queue[j]);
        }
    }
    assert forall|j: int|
        0 <= j < i + 1 && map.passable(#[trigger] ns[j]) implies seen(cf, ns[j]) && walk_not_after(
            tw2[ns[j]],
            tw2[current].push(ns[j]),
        ) by {
        if j < i {
            assert(seen(came_from, ns[j]));
        }
    }
    assert(expand_inv(map, start, cf, dist2, tw2, vis2, q2, closed, current, i + 1, is_goal));
}

/// Passing over a blocked or already reached neighbour keeps the bookkeeping.
pub proof fn lemma_expand_skip<F: Fn(Position) -> bool>(
    map: Grid,
    start: Position,
    came_from: Map<u64, Position>,
    dist: Map<Position, nat>,
    tw: Map<Position, Seq<Position>>,
    vis: Set<int>,
    queue: Seq<Position>,
    closed: Set<Position>,
    current: Position,
    i: int,
    is_goal: F,
)
    requires
        expand_inv(map, start, came_from, dist, tw, vis, queue, closed, current, i, is_goal),
        0 <= i < 4,
        !(map.passable(neighbor_seq(current)[i]) && !seen(came_from, neighbor_seq(current)[i])),
    ensures
        expand_inv(map, start, came_from, dist, tw, vis, queue, closed, current, i + 1, is_goal),
{
    reveal(expand_inv);
    let ns = neighbor_seq(current);
    let n = ns[i];
    if map.passable(n) {
        assert(seen(came_from, n));
        assert(tw[current].len() >= 1);
        if n == start {
            assert(tw[start].len() == 1);
            lemma_walk_before_order(tw[start], tw[current].push(n), tw[current].push(n));
        } else {
            let pq = came_from[pos_key(n)];
            assert(tw[n] == tw[pq].push(n));
            if pq != current {
                assert(closed.contains(pq));
                assert(walk_before(tw[pq], tw[current]));
                assert(tw[pq].len() >= 1);
                lemma_walk_before_push(tw[pq], tw[current], n, n);
            }
        }
        assert(walk_not_after(tw[n], tw[current].push(n)));
    }
    assert forall|j: int|
        0 <= j < i + 1 && map.passable(#[trigger] ns[j]) implies seen(came_from, ns[j]) && walk_not_after(
            tw[ns[j]],
            tw[current].push(ns[j]),
        ) by {
    }
}

/// Once every move from `current` is examined, closing it restores the
/// bookkeeping of the search loop.
pub proof fn lemma_expand_end<F: Fn(Position) -> bool>(
    map: Grid,
    start: Position,
    came_from: Map<u64, Position>,
    dist: Map<Position, nat>,
    tw: Map<Position, Seq<Position>>,
    vis: Set<int>,
    queue: Seq<Position>,
    closed: Set<Position>,
    current: Position,
    is_goal: F,
)
    requires
        expand_inv(map, start, came_from, dist, tw, vis, queue, closed, current, 4, is_goal),
    ensures
        ({
            let closed2 = closed.insert(current);
            &&& tree_inv(map, start, came_from, dist)
            &&& walks_inv(map, start, came_from, dist, tw)
            &&& vis_inv(map, came_from, vis)
            &&& queue_inv(came_from, queue, closed2)
            &&& forall|p: Position| #[trigger]
                seen(came_from, p) ==> queue.contains(p) || closed2.contains(p)
            &&& forall|p: Position|
                #![trigger came_from[pos_key(p)]]
                seen(came_from, p) && p != start ==> closed2.contains(came_from[pos_key(p)])
            &&& closed2.contains(start)
            &&& closed_ok(map, start, came_from, tw, closed2, is_goal)
            &&& search_order(tw, queue, closed2)
        }),
{
    reveal(expand_inv);
    let ns = neighbor_seq(current);
    let closed2 = closed.insert(current);
    assert forall|p: Position| #[trigger] closed2.contains(p) implies (p != start ==> is_goal.ensures((p,), false))
        && forall|q: Position| step(map, p, q) ==> seen(came_from, q) && walk_not_after(tw[q], tw[p].push(q)) by {
        if p == current {
            assert forall|q: Position| step(map, p, q) implies seen(came_from, q) && walk_not_after(
                tw[q],
                tw[p].push(q),
            ) by {
                lemma_neighbors_at_distance_one(current, q);
                let j = choose|j: int| 0 <= j < 4 && ns[j] == q;
            }
        }
    }
    assert forall|c: Position, i: int|
        #[trigger] closed2.contains(c) && 0 <= i < queue.len() implies walk_before(tw[c], tw[#[trigger] queue[i]]) by {
        if c != current {
            lemma_walk_before_order(tw[c], tw[current], tw[queue[i]]);
        }
    }
}

/// Breadth-first search from `start` over passable tiles for the first
/// position other than `start` that satisfies `is_goal`, meeting walks
/// shortest first and, among walks of one length, in the order of their
/// moves (right, left, down, up); returns the first move of that walk.
pub fn bfs_next_step_towards<F: Fn(Position) -> bool>(
    world: &WorldState,
    start: Position,
    is_goal: F,
) -> (r: Option<Position>)
    requires
        world.wf(),
        interior(start),
        forall|p: Position| p != start && world@.map.passable(p) ==> is_goal.requires((p,)),
    ensures
        match r {
            Some(s) => exists|path: Seq<Position>|
                #![trigger is_walk_away(world@.map, start, path)]
                {
                    &&& is_walk_away(world@.map, start, path)
                    &&& path.len() >= 2
                    &&& path[1] == s
                    &&& is_goal.ensures((path.last(),), true)
                    &&& forall|other: Seq<Position>| #[trigger]
                        is_walk_away(world@.map, start, other) && walk_before(other, path)
                            ==> is_goal.ensures((other.last(),), false)
                },
            None => forall|path: Seq<Position>|
                #[trigger] is_walk_away(world@.map, start, path) ==> is_goal.ensures(
                    (path.last(),),
                    false,
                ),
        },
{
    let ghost map = world@.map;
    let ghost wh = map.tiles.len() as int;
    let mut queue: VecDeque<Position> = VecDeque::new();
    queue.push_back(start);
    let mut came_from: HashMap<u64, Position> = HashMap::new();
    came_from.insert(position_key(start), start);
    let ghost mut dist: Map<Position, nat> = Map::empty().insert(start, 0nat);
    let ghost mut tw: Map<Position, Seq<Position>> = Map::empty().insert(start, seq![start]);
    let ghost mut closed: Set<Position> = Set::empty();
    let ghost mut vis: Set<int> = if map.contains(start) {
        Set::empty().insert(map.index_of(start))
    } else {
        Set::empty()
    };
    proof {
        if map.contains(start) {
            lemma_index_in_range(map, start);
        }
        assert forall|p: Position| #[trigger] seen(came_from@, p) implies p == start by {
            lemma_pos_key_injective(p, start);
        }
        assert forall|p: Position| map.contains(p) implies (vis.contains(#[trigger] map.index_of(p))
            <==> seen(came_from@, p)) by {
            if vis.contains(map.index_of(p)) {
                lemma_index_injective(map, p, start);
            }
        }
        assert(queue@[0] == start);
        assert(queue@ =~= seq![start]);
    }
    while queue.len() > 0
        invariant
            world.wf(),
            map == world@.map,
            wh == map.tiles.len(),
            interior(start),
            forall|p: Position| p != start && map.passable(p) ==> is_goal.requires((p,)),
            tree_inv(map, start, came_from@, dist),
            walks_inv(map, start, came_from@, dist, tw),
            vis_inv(map, came_from@, vis),
            queue_inv(came_from@, queue@, closed),
            forall|p: Position| #[trigger] seen(came_from@, p) ==> queue@.contains(p) || closed.contains(p),
            forall|p: Position|
                #![trigger came_from@[pos_key(p)]]
                seen(came_from@, p) && p != start ==> closed.contains(came_from@[pos_key(p)]),
            closed.contains(start) || queue@ == seq![start],
            closed_ok(map, start, came_from@, tw, closed, is_goal),
            search_order(tw, queue@, closed),
        decreases 2 * (wh - vis.len()) + queue@.len(),
    {
        proof {
            vstd::set_lib::lemma_int_range(0, wh);
            vstd::set_lib::lemma_len_subset(vis, set_int_range(0, wh));
        }
        let ghost measure = 2 * (wh - vis.len()) + queue@.len();
        let ghost queue_before = queue@;
        let current = queue.pop_front().unwrap();
        proof {
            assert(queue_before[0] == current);
            assert(seen(came_from@, current));
            assert(!closed.contains(current));
            assert(!queue@.contains(current)) by {
                if queue@.contains(current) {
                    let k = choose|k: int| 0 <= k < queue@.len() && queue@[k] == current;
                    assert(queue_before[k + 1] == current);
                }
            }
            assert forall|p: Position| #[trigger] seen(came_from@, p) implies queue@.contains(p) || closed.contains(p)
                || p == current by {
                if queue_before.contains(p) && p != current {
                    let k = choose|k: int| 0 <= k < queue_before.len() && queue_before[k] == p;
                    assert(queue@[k - 1] == p);
                }
            }
            assert forall|i: int| 0 <= i < queue@.len() implies walk_before(tw[current], tw[#[trigger] queue@[i]]) by {
                assert(queue@[i] == queue_before[i + 1]);
            }
            assert forall|c: Position| #[trigger] closed.contains(c) implies walk_before(tw[c], tw[current]) by {
                assert(walk_before(tw[c], tw[queue_before[0]]));
            }
            assert(current == start || closed.contains(start)) by {
                if !closed.contains(start) {
                    assert(queue_before == seq![start]);
                }
            }
            assert forall|k: int, j: int|
                0 <= k < 4 && 0 <= j < queue@.len() implies walk_before(
                    tw[#[trigger] queue@[j]],
                    tw[current].push(#[trigger] neighbor_seq(current)[k]),
                ) by {
                let q = queue@[j];
                assert(q == queue_before[j + 1]);
                if q == start {
                    assert(queue_before[0] != start);
                    assert(closed.contains(start));
                } else {
                    let pq = came_from@[pos_key(q)];
                    assert(closed.contains(pq));
                    assert(walk_before(tw[pq], tw[current]));
                    assert(tw[pq].len() >= 1);
                    lemma_walk_before_push(tw[pq], tw[current], q, neighbor_seq(current)[k]);
                }
            }
            if current != start {
                lemma_passable_interior(map, current);
            }
        }
        if current != start && is_goal(current) {
            let mut step_pos = current;
            while *came_from.get(&position_key(step_pos)).unwrap() != start
                invariant
                    tree_inv(map, start, came_from@, dist),
                    walks_inv(map, start, came_from@, dist, tw),
                    seen(came_from@, current),
                    seen(came_from@, step_pos),
                    step_pos != start,
                    tw[step_pos] == tw[current].take(dist[step_pos] + 1int),
                    dist[step_pos] <= dist[current],
                decreases dist[step_pos],
            {
                let parent = *came_from.get(&position_key(step_pos)).unwrap();
                proof {
                    assert(tw[parent] =~= tw[step_pos].drop_last());
                    assert(tw[parent] =~= tw[current].take(dist[parent] + 1int));
                }
                step_pos = parent;
            }
            proof {
                let path = tw[current];
                assert(tw[start] =~= seq![start]);
                assert(tw[step_pos] == path.take(2));
                assert(path[1] == step_pos);
                assert(is_walk_away(map, start, path));
                assert forall|other: Seq<Position>| #[trigger]
                    is_walk_away(map, start, other) && walk_before(other, path) implies is_goal.ensures(
                    (other.last(),),
                    false,
                ) by {
                    assert(other.take(other.len() as int) =~= other);
                    lemma_earlier_walks_closed(
                        map,
                        start,
                        came_from@,
                        dist,
                        tw,
                        queue@,
                        closed,
                        current,
                        is_goal,
                        other,
                        other.len() - 1,
                    );
                }
            }
            return Some(step_pos);
        }
        let ns = neighbors(current);
        proof {
            assert(expand_inv(map, start, came_from@, dist, tw, vis, queue@, closed, current, 0, is_goal)) by {
                reveal(expand_inv);
            }
        }
        for i in 0..4usize
            invariant
                world.wf(),
                map == world@.map,
                wh == map.tiles.len(),
                ns@ == neighbor_seq(current),
                expand_inv(map, start, came_from@, dist, tw, vis, queue@, closed, current, i as int, is_goal),
                vis.len() <= wh,
                2 * (wh - vis.len()) + queue@.len() < measure,
        {
            let n = ns[i];
            if world.map.is_passable(n) && !came_from.contains_key(&position_key(n)) {
                proof {
                    lemma_expand_insert(map, start, came_from@, dist, tw, vis, queue@, closed, current, i as int, is_goal);
                    dist = dist.insert(n, dist[current] + 1);
                    tw = tw.insert(n, tw[current].push(n));
                    vis = vis.insert(map.index_of(n));
                }
                came_from.insert(position_key(n), current);
                queue.push_back(n);
            } else {
                proof {
                    lemma_expand_skip(map, start, came_from@, dist, tw, vis, queue@, closed, current, i as int, is_goal);
                }
            }
        }
        proof {
            lemma_expand_end(map, start, came_from@, dist, tw, vis, queue@, closed, current, is_goal);
            closed = closed.insert(current);
        }
    }
    proof {
        assert forall|path: Seq<Position>| #[trigger] is_walk_away(map, start, path) implies is_goal.ensures(
            (path.last(),),
            false,
        ) by {
            assert forall|p: Position| #[trigger] seen(came_from@, p) implies closed.contains(p) by {
                if queue@.contains(p) {
                    let k = choose|k: int| 0 <= k < queue@.len() && queue@[k] == p;
                }
            }
            lemma_closed_holds_walks(map, start, came_from@, tw, closed, is_goal, path, path.len() - 1);
        }
    }
    None
}

} // verus!
