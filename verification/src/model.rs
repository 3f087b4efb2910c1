use vstd::prelude::*;

use crate::positions::{PositionSet, ResourceIndex};

verus! {

/// Width of every simulated world, in tiles.
pub const MAP_WIDTH: usize = 60;

/// Height of every simulated world, in tiles.
pub const MAP_HEIGHT: usize = 24;

/// Number of scout robots in each world.
pub const SCOUT_COUNT: usize = 3;

/// Number of collector robots in each world.
pub const COLLECTOR_COUNT: usize = 4;

/// Position on the grid world.
#[derive(Clone, Copy, Debug, PartialEq, Eq, Hash, Structural)]
pub struct Position {
    pub x: i32,
    pub y: i32,
}

/// Absolute difference of two integers.
pub open spec fn abs_diff(a: int, b: int) -> int {
    if a >= b { a - b } else { b - a }
}

/// Manhattan (taxicab) distance between two positions.
pub open spec fn manhattan(p: Position, q: Position) -> int {
    abs_diff(p.x as int, q.x as int) + abs_diff(p.y as int, q.y as int)
}

/// Distance is symmetric and vanishes exactly between equal positions.
pub proof fn lemma_manhattan_metric(p: Position, q: Position)
    ensures
        manhattan(p, q) == manhattan(q, p),
        manhattan(p, q) >= 0,
        manhattan(p, q) == 0 <==> p == q,
{
}

impl Position {
    /// Sum of the horizontal and vertical distances to `other`.
    pub fn manhattan_distance(self, other: Position) -> (d: i32)
        requires
            manhattan(self, other) <= i32::MAX,
        ensures
            d == manhattan(self, other),
    {
        let dx: i32 = if self.x >= other.x { self.x - other.x } else { other.x - self.x };
        let dy: i32 = if self.y >= other.y { self.y - other.y } else { other.y - self.y };
        dx + dy
    }
}

/// Kind of resource that can be harvested.
#[derive(Clone, Copy, Debug, PartialEq, Eq, Structural)]
pub enum ResourceKind {
    Energy,
    Crystal,
}

/// Content of one grid cell.
#[derive(Clone, Copy, Debug, PartialEq, Eq, Structural)]
pub enum Tile {
    Empty,
    Obstacle,
    Resource { kind: ResourceKind, amount: u16 },
    Base,
}

/// A resource tile after one unit is taken: emptied when the last unit goes.
/// Other tiles stay as they are.
pub open spec fn harvested(t: Tile) -> Tile {
    match t {
        Tile::Resource { kind, amount } => if amount <= 1 {
            Tile::Empty
        } else {
            Tile::Resource { kind, amount: (amount - 1) as u16 }
        },
        _ => t,
    }
}

impl Tile {
    /// This tile after one unit is taken from it.
    pub fn after_harvest(self) -> (t: Tile)
        ensures
            t == harvested(self),
    {
        match self {
            Tile::Resource { kind, amount } => if amount <= 1 {
                Tile::Empty
            } else {
                Tile::Resource { kind, amount: amount - 1 }
            },
            _ => self,
        }
    }
}

/// Mathematical model of a world map: its size, its cells in row-major
/// order, and the position of the base.
pub struct Grid {
    pub width: int,
    pub height: int,
    pub tiles: Seq<Tile>,
    pub base: Position,
}

impl Grid {
    /// The grid has one cell per position and its sides fit the coordinate type
    /// (so that every in-bounds distance fits an `i32`).
    pub open spec fn wf(self) -> bool {
        &&& self.width >= 0
        &&& self.height >= 0
        &&& self.tiles.len() == self.width * self.height
        &&& self.width + self.height <= i32::MAX
    }

    pub open spec fn contains(self, p: Position) -> bool {
        0 <= p.x < self.width && 0 <= p.y < self.height
    }

    /// Row-major index of a position.
    pub open spec fn index_of(self, p: Position) -> int {
        p.y * self.width + p.x
    }

    /// Cell at a position, `None` outside the grid.
    pub open spec fn tile(self, p: Position) -> Option<Tile> {
        if self.contains(p) {
            Some(self.tiles[self.index_of(p)])
        } else {
            None
        }
    }

    /// A position is passable when it lies on the grid and is not an obstacle.
    pub open spec fn passable(self, p: Position) -> bool {
        self.tile(p) matches Some(t) && t != Tile::Obstacle
    }

    /// The grid with the cell at `p` replaced, or unchanged when `p` is off the grid.
    pub open spec fn with_tile(self, p: Position, t: Tile) -> Grid {
        if self.contains(p) {
            Grid { tiles: self.tiles.update(self.index_of(p), t), ..self }
        } else {
            self
        }
    }
}

/// Row-major indices of in-bounds positions lie in the cell range.
pub proof fn lemma_index_in_range(g: Grid, p: Position)
    requires
        g.wf(),
        g.contains(p),
    ensures
        0 <= g.index_of(p) < g.tiles.len(),
{
    let w = g.width;
    let h = g.height;
    let x = p.x as int;
    let y = p.y as int;
    assert(y * w + x < w * h) by (nonlinear_arith)
        requires
            0 <= x < w,
            0 <= y < h,
    ;
    assert(0 <= y * w) by (nonlinear_arith)
        requires
            0 <= y,
            0 <= w,
    ;
}

/// Two cells of a well-formed grid are at most `i32::MAX` apart, along each
/// axis and in total.
pub proof fn lemma_in_bounds_distance(g: Grid, p: Position, q: Position)
    requires
        g.wf(),
        g.contains(p),
        g.contains(q),
    ensures
        manhattan(p, q) <= i32::MAX,
        -g.width < q.x - p.x < g.width,
        -g.height < q.y - p.y < g.height,
{
}

/// Distinct in-bounds positions have distinct row-major indices.
pub proof fn lemma_index_injective(g: Grid, p: Position, q: Position)
    requires
        g.wf(),
        g.contains(p),
        g.contains(q),
        g.index_of(p) == g.index_of(q),
    ensures
        p == q,
{
    let w = g.width;
    let (px, py, qx, qy) = (p.x as int, p.y as int, q.x as int, q.y as int);
    assert(py == qy && px == qx) by (nonlinear_arith)
        requires
            0 <= px < w,
            0 <= qx < w,
            0 <= py,
            0 <= qy,
            py * w + px == qy * w + qx,
    {
        if py < qy {
            assert(py * w + w <= qy * w) by (nonlinear_arith)
                requires
                    py < qy,
                    0 <= w,
            ;
        } else if qy < py {
            assert(qy * w + w <= py * w) by (nonlinear_arith)
                requires
                    qy < py,
                    0 <= w,
            ;
        }
    }
}

/// Writing a cell and reading it back: the written position gives the new
/// cell, every other position keeps its cell, and the grid stays well formed.
pub proof fn lemma_read_after_write(g: Grid, p: Position, t: Tile, q: Position)
    requires
        g.wf(),
    ensures
        g.with_tile(p, t).wf(),
        g.with_tile(p, t).tile(q) == (if q == p && g.contains(p) { Some(t) } else { g.tile(q) }),
{
    if g.contains(p) {
        lemma_index_in_range(g, p);
    }
    if g.contains(p) && g.contains(q) {
        lemma_index_in_range(g, q);
        if q != p {
            if g.index_of(p) == g.index_of(q) {
                lemma_index_injective(g, p, q);
            }
        }
    }
}

/// A rectangular world of tiles with a base.
#[derive(Clone, Debug)]
pub struct WorldMap {
    pub width: usize,
    pub height: usize,
    pub tiles: Vec<Tile>,
    pub base: Position,
}

impl View for WorldMap {
    type V = Grid;

    open spec fn view(&self) -> Grid {
        Grid { width: self.width as int, height: self.height as int, tiles: self.tiles@, base: self.base }
    }
}

impl WorldMap {
    pub open spec fn wf(&self) -> bool {
        self@.wf()
    }

    /// Whether a position lies on the map.
    pub fn in_bounds(&self, pos: Position) -> (r: bool)
        ensures
            r == self@.contains(pos),
    {
        pos.x >= 0 && pos.y >= 0 && (pos.x as usize) < self.width && (pos.y as usize) < self.height
    }

    /// Row-major index of an in-bounds position.
    pub fn idx(&self, pos: Position) -> (i: usize)
        requires
            self.wf(),
            self@.contains(pos),
        ensures
            i == self@.index_of(pos),
            i < self.tiles@.len(),
    {
        proof {
            lemma_index_in_range(self@, pos);
        }
        let x = pos.x as usize;
        let y = pos.y as usize;
        assert(y * self.width + x == self@.index_of(pos));
        assert(y * self.width + x < self.tiles.len());
        y * self.width + x
    }

    /// The tile at a position, or `None` off the map.
    pub fn tile_at(&self, pos: Position) -> (r: Option<&Tile>)
        requires
            self.wf(),
        ensures
            match r {
                Some(t) => self@.tile(pos) == Some(*t),
                None => self@.tile(pos) is None,
            },
    {
        if self.in_bounds(pos) {
            Some(&self.tiles[self.idx(pos)])
        } else {
            None
        }
    }

    /// Replaces the tile at a position; positions off the map are ignored.
    pub fn set_tile(&mut self, pos: Position, tile: Tile)
        requires
            old(self).wf(),
        ensures
            final(self)@ == old(self)@.with_tile(pos, tile),
            final(self).wf(),
    {
        proof {
            lemma_read_after_write(self@, pos, tile, pos);
        }
        if self.in_bounds(pos) {
            let idx = self.idx(pos);
            self.tiles.set(idx, tile);
        }
    }

    /// Whether a robot may stand on a position.
    pub fn is_passable(&self, pos: Position) -> (r: bool)
        requires
            self.wf(),
        ensures
            r == self@.passable(pos),
    {
        match self.tile_at(pos) {
            Some(Tile::Obstacle) | None => false,
            _ => true,
        }
    }
}

/// Role of a robot.
#[derive(Clone, Copy, Debug, PartialEq, Eq, Structural)]
pub enum RobotKind {
    Scout,
    Collector,
}

impl RobotKind {
    /// Only collectors harvest resources; scouts only explore.
    pub fn can_collect(self) -> (r: bool)
        ensures
            r == (self == RobotKind::Collector),
    {
        match self {
            RobotKind::Collector => true,
            RobotKind::Scout => false,
        }
    }
}

/// A robot as the world snapshot records it.
#[derive(Clone, Copy, Debug, PartialEq, Eq, Structural)]
pub struct RobotState {
    pub id: usize,
    pub kind: RobotKind,
    pub pos: Position,
}

/// Events that robots report about the world. `Harvested` tells that a
/// collector took one unit of the given kind from the resource at `pos`.
#[derive(Clone, Copy, Debug, PartialEq, Eq, Structural)]
pub enum Message {
    RobotMoved { id: usize, pos: Position },
    ObstacleFound(Position),
    ResourceFound { pos: Position, kind: ResourceKind },
    ResourceDepleted(Position),
    Deposited(ResourceKind),
    Harvested { pos: Position, kind: ResourceKind },
}

/// Mathematical model of a world snapshot.
pub struct WorldView {
    pub map: Grid,
    pub robots: Seq<RobotState>,
    pub known_obstacles: Set<Position>,
    pub known_resources: Map<Position, ResourceKind>,
    pub total_energy: int,
    pub total_crystals: int,
}

impl WorldView {
    /// Whether a message can be applied: a moved robot must exist and a
    /// deposit must not overflow its counter.
    pub open spec fn applicable(self, m: Message) -> bool {
        match m {
            Message::RobotMoved { id, .. } => id < self.robots.len(),
            Message::Deposited(ResourceKind::Energy) => self.total_energy < u32::MAX,
            Message::Deposited(ResourceKind::Crystal) => self.total_crystals < u32::MAX,
            _ => true,
        }
    }

    /// The snapshot after a message.
    pub open spec fn apply(self, m: Message) -> WorldView {
        match m {
            Message::RobotMoved { id, pos } => WorldView {
                robots: self.robots.update(id as int, RobotState { pos, ..self.robots[id as int] }),
                ..self
            },
            Message::ObstacleFound(pos) => WorldView {
                known_obstacles: self.known_obstacles.insert(pos),
                ..self
            },
            Message::ResourceFound { pos, kind } => WorldView {
                known_resources: self.known_resources.insert(pos, kind),
                ..self
            },
            Message::ResourceDepleted(pos) => WorldView {
                known_resources: self.known_resources.remove(pos),
                ..self
            },
            Message::Deposited(ResourceKind::Energy) => WorldView {
                total_energy: self.total_energy + 1,
                ..self
            },
            Message::Deposited(ResourceKind::Crystal) => WorldView {
                total_crystals: self.total_crystals + 1,
                ..self
            },
            Message::Harvested { pos, .. } => WorldView {
                map: match self.map.tile(pos) {
                    Some(t) => self.map.with_tile(pos, harvested(t)),
                    None => self.map,
                },
                ..self
            },
        }
    }

    /// Every message of a sequence is applicable in turn.
    pub open spec fn applies_all(self, ms: Seq<Message>) -> bool
        decreases ms.len(),
    {
        if ms.len() == 0 {
            true
        } else {
            self.applicable(ms[0]) && self.apply(ms[0]).applies_all(ms.drop_first())
        }
    }

    /// The snapshot after a sequence of messages, applied first to last.
    pub open spec fn apply_all(self, ms: Seq<Message>) -> WorldView
        decreases ms.len(),
    {
        if ms.len() == 0 {
            self
        } else {
            self.apply(ms[0]).apply_all(ms.drop_first())
        }
    }

    /// Kind of the last robot (in robot order) standing on a position.
    pub open spec fn robot_kind_at(self, p: Position) -> Option<RobotKind> {
        last_robot_kind_at(self.robots, p)
    }

    /// Character that shows a position: a robot standing there, else its tile.
    pub open spec fn glyph(self, p: Position) -> char {
        match self.robot_kind_at(p) {
            Some(RobotKind::Scout) => 'x',
            Some(RobotKind::Collector) => 'o',
            None => match self.map.tile(p) {
                Some(Tile::Obstacle) => '0',
                Some(Tile::Resource { kind: ResourceKind::Energy, .. }) => 'E',
                Some(Tile::Resource { kind: ResourceKind::Crystal, .. }) => 'C',
                Some(Tile::Base) => '#',
                _ => '.',
            },
        }
    }
}

/// Kind of the last robot of a sequence that stands on `p`.
pub open spec fn last_robot_kind_at(robots: Seq<RobotState>, p: Position) -> Option<RobotKind>
    decreases robots.len(),
{
    if robots.len() == 0 {
        None
    } else if robots.last().pos == p {
        Some(robots.last().kind)
    } else {
        last_robot_kind_at(robots.drop_last(), p)
    }
}

/// Applying a sequence and then one more message is applying the longer sequence.
pub proof fn lemma_apply_all_push(w: WorldView, ms: Seq<Message>, m: Message)
    ensures
        w.apply_all(ms.push(m)) == w.apply_all(ms).apply(m),
    decreases ms.len(),
{
    if ms.len() > 0 {
        assert(ms.push(m)[0] == ms[0]);
        assert(ms.push(m).drop_first() =~= ms.drop_first().push(m));
        lemma_apply_all_push(w.apply(ms[0]), ms.drop_first(), m);
    } else {
        assert(ms.push(m)[0] == m);
        assert(ms.push(m).drop_first() =~= Seq::<Message>::empty());
        assert(w.apply(m).apply_all(Seq::<Message>::empty()) == w.apply(m));
    }
}

/// Number of deposits of a kind reported among messages.
pub open spec fn deposits_of(ms: Seq<Message>, kind: ResourceKind) -> nat
    decreases ms.len(),
{
    if ms.len() == 0 {
        0
    } else {
        (if ms[0] == Message::Deposited(kind) {
            1nat
        } else {
            0nat
        }) + deposits_of(ms.drop_first(), kind)
    }
}

/// Each deposit total grows by the deposits of its kind among the messages applied.
pub proof fn lemma_totals_count_deposits(w: WorldView, ms: Seq<Message>)
    ensures
        w.apply_all(ms).total_energy == w.total_energy + deposits_of(ms, ResourceKind::Energy),
        w.apply_all(ms).total_crystals == w.total_crystals + deposits_of(ms, ResourceKind::Crystal),
    decreases ms.len(),
{
    if ms.len() > 0 {
        lemma_totals_count_deposits(w.apply(ms[0]), ms.drop_first());
    }
}

/// Processing one batch of messages and then another leaves the snapshot
/// that processing the two as one batch leaves, and the two can be applied
/// in turn exactly when the combined batch can; each deposit total then
/// grows by the deposits of its kind in both batches together.
pub proof fn lemma_batches_compose(w: WorldView, a: Seq<Message>, b: Seq<Message>)
    ensures
        w.apply_all(a + b) == w.apply_all(a).apply_all(b),
        w.applies_all(a + b) == (w.applies_all(a) && w.apply_all(a).applies_all(b)),
        deposits_of(a + b, ResourceKind::Energy) == deposits_of(a, ResourceKind::Energy) + deposits_of(
            b,
            ResourceKind::Energy,
        ),
        deposits_of(a + b, ResourceKind::Crystal) == deposits_of(a, ResourceKind::Crystal)
            + deposits_of(b, ResourceKind::Crystal),
        w.apply_all(a).apply_all(b).total_energy == w.total_energy + deposits_of(
            a,
            ResourceKind::Energy,
        ) + deposits_of(b, ResourceKind::Energy),
        w.apply_all(a).apply_all(b).total_crystals == w.total_crystals + deposits_of(
            a,
            ResourceKind::Crystal,
        ) + deposits_of(b, ResourceKind::Crystal),
    decreases a.len(),
{
    if a.len() == 0 {
        assert(a + b =~= b);
    } else {
        assert((a + b)[0] == a[0]);
        assert((a + b).drop_first() =~= a.drop_first() + b);
        lemma_batches_compose(w.apply(a[0]), a.drop_first(), b);
    }
    lemma_totals_count_deposits(w, a + b);
}

/// Every robot stands on a passable tile.
pub open spec fn robots_on_open_ground(w: WorldView) -> bool {
    forall|i: int| 0 <= i < w.robots.len() ==> w.map.passable(#[trigger] w.robots[i].pos)
}

/// Reports of found obstacles and resources change neither the map nor the robots.
pub proof fn lemma_found_reports_keep_map_and_robots(w: WorldView, ms: Seq<Message>)
    requires
        forall|i: int|
            0 <= i < ms.len() ==> (#[trigger] ms[i] is ObstacleFound || ms[i] is ResourceFound),
    ensures
        w.apply_all(ms).map == w.map,
        w.apply_all(ms).robots == w.robots,
    decreases ms.len(),
{
    if ms.len() > 0 {
        assert(ms[0] is ObstacleFound || ms[0] is ResourceFound);
        assert forall|i: int| 0 <= i < ms.drop_first().len() implies (#[trigger] ms.drop_first()[i] is ObstacleFound
            || ms.drop_first()[i] is ResourceFound) by {
            assert(ms.drop_first()[i] == ms[i + 1]);
        }
        lemma_found_reports_keep_map_and_robots(w.apply(ms[0]), ms.drop_first());
    }
}

/// Moving a robot onto a passable tile (or leaving it in place) keeps every
/// robot on passable ground.
pub proof fn lemma_move_keeps_open_ground(w: WorldView, id: usize, pos: Position)
    requires
        robots_on_open_ground(w),
        id < w.robots.len(),
        w.map.passable(pos) || pos == w.robots[id as int].pos,
    ensures
        robots_on_open_ground(w.apply(Message::RobotMoved { id, pos })),
{
    let w2 = w.apply(Message::RobotMoved { id, pos });
    assert forall|i: int| 0 <= i < w2.robots.len() implies w2.map.passable(#[trigger] w2.robots[i].pos) by {
        if i != id {
            assert(w2.robots[i] == w.robots[i]);
        } else {
            assert(w.map.passable(w.robots[i].pos));
        }
    }
}

/// Taking a unit from a cell keeps the map well formed and leaves every
/// cell exactly as passable as before, so every robot stays on passable ground.
pub proof fn lemma_harvest_keeps_open_ground(w: WorldView, p: Position, kind: ResourceKind)
    requires
        w.map.wf(),
        robots_on_open_ground(w),
    ensures
        w.apply(Message::Harvested { pos: p, kind }).map.wf(),
        w.apply(Message::Harvested { pos: p, kind }).robots == w.robots,
        robots_on_open_ground(w.apply(Message::Harvested { pos: p, kind })),
{
    let w2 = w.apply(Message::Harvested { pos: p, kind });
    if let Some(t) = w.map.tile(p) {
        lemma_read_after_write(w.map, p, harvested(t), p);
        assert forall|i: int| 0 <= i < w2.robots.len() implies w2.map.passable(#[trigger] w2.robots[i].pos) by {
            lemma_read_after_write(w.map, p, harvested(t), w.robots[i].pos);
            assert(w.map.passable(w.robots[i].pos));
        }
    }
}

/// Applying a message never lowers the deposit totals.
pub proof fn lemma_totals_never_decrease(w: WorldView, ms: Seq<Message>)
    ensures
        w.apply_all(ms).total_energy >= w.total_energy,
        w.apply_all(ms).total_crystals >= w.total_crystals,
    decreases ms.len(),
{
    if ms.len() > 0 {
        lemma_totals_never_decrease(w.apply(ms[0]), ms.drop_first());
    }
}

/// A resource reported found and then reported depleted is no longer known.
pub proof fn lemma_found_then_depleted(w: WorldView, pos: Position, kind: ResourceKind)
    ensures
        !w.apply(Message::ResourceFound { pos, kind }).apply(
            Message::ResourceDepleted(pos),
        ).known_resources.contains_key(pos),
{
}

/// A robot move changes the position of that robot only.
pub proof fn lemma_move_touches_one_robot(w: WorldView, id: usize, pos: Position, j: int)
    requires
        w.applicable(Message::RobotMoved { id, pos }),
        0 <= j < w.robots.len(),
    ensures
        w.apply(Message::RobotMoved { id, pos }).robots.len() == w.robots.len(),
        w.apply(Message::RobotMoved { id, pos }).robots[j] == (if j == id {
            (RobotState { pos, ..w.robots[j] })
        } else {
            w.robots[j]
        }),
{
}

/// The `i`-th robot of a fresh world with `scouts` scouts: numbered `i`,
/// a scout when `i < scouts` and a collector otherwise, standing at the base.
pub open spec fn initial_robot(i: int, scouts: usize, base: Position) -> RobotState {
    RobotState {
        id: i as usize,
        kind: if i < scouts { RobotKind::Scout } else { RobotKind::Collector },
        pos: base,
    }
}

/// The shared state of one simulated world.
#[derive(Clone, Debug)]
pub struct WorldState {
    pub map: WorldMap,
    pub robots: Vec<RobotState>,
    pub known_obstacles: PositionSet,
    pub known_resources: ResourceIndex,
    pub total_energy: u32,
    pub total_crystals: u32,
}

impl View for WorldState {
    type V = WorldView;

    open spec fn view(&self) -> WorldView {
        WorldView {
            map: self.map@,
            robots: self.robots@,
            known_obstacles: self.known_obstacles@,
            known_resources: self.known_resources@,
            total_energy: self.total_energy as int,
            total_crystals: self.total_crystals as int,
        }
    }
}

impl WorldState {
    pub open spec fn wf(&self) -> bool {
        self.map.wf() && self.known_resources.wf()
    }

    /// Creates a new world snapshot: the scouts, then the collectors,
    /// numbered from zero, every one of them at the base.
    pub fn new(map: WorldMap, scouts: usize, collectors: usize) -> (w: WorldState)
        requires
            scouts + collectors <= usize::MAX,
        ensures
            w.map == map,
            w.known_resources.wf(),
            w@.robots.len() == scouts + collectors,
            forall|i: int|
                0 <= i < scouts + collectors ==> #[trigger] w@.robots[i] == initial_robot(
                    i,
                    scouts,
                    map.base,
                ),
            w@.known_obstacles == Set::<Position>::empty(),
            w@.known_resources == Map::<Position, ResourceKind>::empty(),
            w@.total_energy == 0,
            w@.total_crystals == 0,
    {
        let mut robots: Vec<RobotState> = Vec::new();
        for i in 0..scouts
            invariant
                robots@.len() == i,
                forall|j: int|
                    0 <= j < i ==> #[trigger] robots@[j] == initial_robot(j, scouts, map.base),
        {
            robots.push(RobotState { id: i, kind: RobotKind::Scout, pos: map.base });
        }
        for i in 0..collectors
            invariant
                scouts + collectors <= usize::MAX,
                robots@.len() == scouts + i,
                forall|j: int|
                    0 <= j < scouts + i ==> #[trigger] robots@[j] == initial_robot(j, scouts, map.base),
        {
            robots.push(RobotState { id: i + scouts, kind: RobotKind::Collector, pos: map.base });
        }
        WorldState {
            map,
            robots,
            known_obstacles: PositionSet::new(),
            known_resources: ResourceIndex::new(),
            total_energy: 0,
            total_crystals: 0,
        }
    }

    /// Whether a message can be applied to this snapshot.
    pub fn can_apply(&self, message: &Message) -> (r: bool)
        ensures
            r == self@.applicable(*message),
    {
        match message {
            Message::RobotMoved { id, .. } => *id < self.robots.len(),
            Message::Deposited(ResourceKind::Energy) => self.total_energy < u32::MAX,
            Message::Deposited(ResourceKind::Crystal) => self.total_crystals < u32::MAX,
            _ => true,
        }
    }

    /// Applies one worker message to the snapshot.
    pub fn apply_message(&mut self, message: Message)
        requires
            old(self).wf(),
            old(self)@.applicable(message),
        ensures
            final(self).wf(),
            final(self)@ == old(self)@.apply(message),
    {
        match message {
            Message::RobotMoved { id, pos } => {
                let mut robot = self.robots[id];
                robot.pos = pos;
                self.robots.set(id, robot);
            },
            Message::ObstacleFound(pos) => {
                self.known_obstacles.insert(pos);
            },
            Message::ResourceFound { pos, kind } => {
                self.known_resources.insert(pos, kind);
            },
            Message::ResourceDepleted(pos) => {
                self.known_resources.remove(pos);
            },
            Message::Deposited(ResourceKind::Energy) => {
                self.total_energy = self.total_energy + 1;
            },
            Message::Deposited(ResourceKind::Crystal) => {
                self.total_crystals = self.total_crystals + 1;
            },
            Message::Harvested { pos, .. } => {
                let here: Option<Tile> = match self.map.tile_at(pos) {
                    Some(t) => Some(*t),
                    None => None,
                };
                if let Some(t) = here {
                    self.map.set_tile(pos, t.after_harvest());
                }
            },
        }
    }

    /// Number of resources the world currently knows about.
    pub fn known_resource_count(&self) -> (n: usize)
        requires
            self.wf(),
        ensures
            n == self@.known_resources.dom().len(),
    {
        self.known_resources.len()
    }

    /// Character that shows a position in a rendered panel.
    pub fn glyph_at(&self, pos: Position) -> (c: char)
        requires
            self.wf(),
        ensures
            c == self@.glyph(pos),
    {
        let mut found: Option<RobotKind> = None;
        let n = self.robots.len();
        for i in 0..n
            invariant
                n == self.robots@.len(),
                found == last_robot_kind_at(self.robots@.take(i as int), pos),
        {
            proof {
                assert(self.robots@.take(i + 1).drop_last() =~= self.robots@.take(i as int));
            }
            if self.robots[i].pos == pos {
                found = Some(self.robots[i].kind);
            }
        }
        proof {
            assert(self.robots@.take(n as int) =~= self.robots@);
        }
        match found {
            Some(RobotKind::Scout) => 'x',
            Some(RobotKind::Collector) => 'o',
            None => match self.map.tile_at(pos) {
                Some(Tile::Obstacle) => '0',
                Some(Tile::Resource { kind: ResourceKind::Energy, .. }) => 'E',
                Some(Tile::Resource { kind: ResourceKind::Crystal, .. }) => 'C',
                Some(Tile::Base) => '#',
                _ => '.',
            },
        }
    }
}

/// Applies a batch of worker messages to the snapshot, first to last.
pub fn process_messages(world: &mut WorldState, messages: Vec<Message>)
    requires
        old(world).wf(),
        old(world)@.applies_all(messages@),
    ensures
        final(world).wf(),
        final(world)@ == old(world)@.apply_all(messages@),
{
    let n = messages.len();
    assert(messages@.skip(0) =~= messages@);
    for i in 0..n
        invariant
            n == messages@.len(),
            world.wf(),
            world@.applies_all(messages@.skip(i as int)),
            world@.apply_all(messages@.skip(i as int)) == old(world)@.apply_all(messages@),
    {
        proof {
            assert(messages@.skip(i as int).drop_first() =~= messages@.skip(i + 1));
        }
        world.apply_message(messages[i]);
    }
}

} // verus!
