use rand::rngs::StdRng;
use vstd::prelude::*;

use crate::model::{
    lemma_index_in_range, lemma_index_injective, lemma_read_after_write, manhattan, Grid, Position,
    ResourceKind, Tile, WorldMap,
};
use crate::random::{random_i32_below, random_u16_through};

verus! {

/// Number of deposits of each resource kind seeded into a fresh map.
pub const DEPOSITS_PER_KIND: usize = 16;

/// Smallest amount a fresh deposit holds.
pub const MIN_DEPOSIT: u16 = 50;

/// Largest amount a fresh deposit holds.
pub const MAX_DEPOSIT: u16 = 200;

/// Whether a tile is a resource of the given kind.
pub open spec fn is_resource_of(t: Tile, kind: ResourceKind) -> bool {
    t matches Tile::Resource { kind: k, .. } && k == kind
}

/// Number of resource tiles of a kind.
pub open spec fn count_resources(tiles: Seq<Tile>, kind: ResourceKind) -> nat
    decreases tiles.len(),
{
    if tiles.len() == 0 {
        0
    } else {
        count_resources(tiles.drop_last(), kind) + if is_resource_of(tiles.last(), kind) {
            1nat
        } else {
            0nat
        }
    }
}

/// Replacing one tile changes the count by what leaves and what enters.
pub proof fn lemma_count_update(tiles: Seq<Tile>, i: int, t: Tile, kind: ResourceKind)
    requires
        0 <= i < tiles.len(),
    ensures
        count_resources(tiles.update(i, t), kind) + (if is_resource_of(tiles[i], kind) {
            1int
        } else {
            0int
        }) == count_resources(tiles, kind) + (if is_resource_of(t, kind) {
            1int
        } else {
            0int
        }),
    decreases tiles.len(),
{
    let u = tiles.update(i, t);
    if i == tiles.len() - 1 {
        assert(u.drop_last() =~= tiles.drop_last());
    } else {
        lemma_count_update(tiles.drop_last(), i, t, kind);
        assert(u.drop_last() =~= tiles.drop_last().update(i, t));
    }
}

/// A sequence without resource tiles counts none.
pub proof fn lemma_count_none(tiles: Seq<Tile>, kind: ResourceKind)
    requires
        forall|i: int| 0 <= i < tiles.len() ==> !(#[trigger] tiles[i] is Resource),
    ensures
        count_resources(tiles, kind) == 0,
    decreases tiles.len(),
{
    if tiles.len() > 0 {
        lemma_count_none(tiles.drop_last(), kind);
    }
}

/// Whether a fresh deposit of `kind` was placed at `p` between `before` and
/// `after`: the cell was empty and not the base, and now holds 50 to 200 units.
pub open spec fn deposit_placed(before: Grid, after: Grid, p: Position, kind: ResourceKind) -> bool {
    &&& before.tile(p) == Some(Tile::Empty)
    &&& p != before.base
    &&& after.tile(p) matches Some(Tile::Resource { kind: k, amount })
    &&& k == kind
    &&& MIN_DEPOSIT <= amount <= MAX_DEPOSIT
}

/// Number of draws a placement may try per deposit it is asked for.
pub const DRAWS_PER_DEPOSIT: usize = 200;

/// Whether a fresh deposit may go at `p`: the cell lies on the grid, is
/// empty, and is not the base.
pub open spec fn accepts(g: Grid, p: Position) -> bool {
    p != g.base && g.tile(p) == Some(Tile::Empty)
}

/// The cell that a draw names.
pub open spec fn draw_pos(d: (i32, i32, u16)) -> Position {
    Position { x: d.0, y: d.1 }
}

/// Every draw carries an amount a fresh deposit may hold.
pub open spec fn amounts_in_range(draws: Seq<(i32, i32, u16)>) -> bool {
    forall|i: int| 0 <= i < draws.len() ==> MIN_DEPOSIT <= #[trigger] draws[i].2 <= MAX_DEPOSIT
}

/// Every draw names a cell of a `width` by `height` map and an amount a
/// fresh deposit may hold: what the random source gives.
pub open spec fn draws_fit(draws: Seq<(i32, i32, u16)>, width: int, height: int) -> bool {
    forall|i: int|
        0 <= i < draws.len() ==> {
            &&& 0 <= (#[trigger] draws[i]).0 < width
            &&& 0 <= draws[i].1 < height
            &&& MIN_DEPOSIT <= draws[i].2 <= MAX_DEPOSIT
        }
}

/// Placement of up to `count` deposits of `kind` from `draws`, tried in
/// order, at most `budget` of them: a draw whose cell accepts a deposit puts
/// one there holding the draw's amount; a draw whose cell does not is
/// spent all the same. It stops once `count` are placed, `budget` draws are
/// tried, or the draws run out. Gives the grid after, the number of
/// deposits placed and the number of draws tried.
pub open spec fn place_run(
    g: Grid,
    kind: ResourceKind,
    count: nat,
    draws: Seq<(i32, i32, u16)>,
    budget: nat,
) -> (Grid, nat, nat)
    decreases draws.len(),
{
    if count == 0 || budget == 0 || draws.len() == 0 {
        (g, 0, 0)
    } else {
        let p = draw_pos(draws[0]);
        if accepts(g, p) {
            let r = place_run(
                g.with_tile(p, Tile::Resource { kind, amount: draws[0].2 }),
                kind,
                (count - 1) as nat,
                draws.drop_first(),
                (budget - 1) as nat,
            );
            (r.0, r.1 + 1, r.2 + 1)
        } else {
            let r = place_run(g, kind, count, draws.drop_first(), (budget - 1) as nat);
            (r.0, r.1, r.2 + 1)
        }
    }
}

/// What a placement run keeps and what it changes: the grid stays well
/// formed with its size and base; no more than `count` deposits are placed
/// and no more than `budget` draws tried; the run stops short of `count`
/// only when its budget or its draws are used up; every changed cell is a
/// fresh deposit of `kind` on a cell that was empty; the number of deposits
/// of `kind` grows by the number placed and that of the other kind stays.
pub proof fn lemma_place_run(
    g: Grid,
    kind: ResourceKind,
    count: nat,
    draws: Seq<(i32, i32, u16)>,
    budget: nat,
)
    requires
        g.wf(),
        amounts_in_range(draws),
    ensures
        ({
            let r = place_run(g, kind, count, draws, budget);
            &&& r.0.wf()
            &&& r.0.width == g.width
            &&& r.0.height == g.height
            &&& r.0.base == g.base
            &&& r.1 <= count
            &&& r.1 <= r.2 <= budget
            &&& r.2 <= draws.len()
            &&& (r.1 == count || r.2 == budget || r.2 == draws.len())
            &&& forall|p: Position|
                #[trigger] r.0.tile(p) == g.tile(p) || deposit_placed(g, r.0, p, kind)
            &&& count_resources(r.0.tiles, kind) == count_resources(g.tiles, kind) + r.1
            &&& forall|k: ResourceKind|
                k != kind ==> #[trigger] count_resources(r.0.tiles, k) == count_resources(g.tiles, k)
        }),
    decreases draws.len(),
{
    if count == 0 || budget == 0 || draws.len() == 0 {
    } else {
        let p = draw_pos(draws[0]);
        let rest = draws.drop_first();
        assert forall|i: int| 0 <= i < rest.len() implies MIN_DEPOSIT <= #[trigger] rest[i].2 <= MAX_DEPOSIT by {
            assert(rest[i] == draws[i + 1]);
        }
        if accepts(g, p) {
            let t = Tile::Resource { kind, amount: draws[0].2 };
            let g2 = g.with_tile(p, t);
            lemma_index_in_range(g, p);
            lemma_read_after_write(g, p, t, p);
            lemma_count_update(g.tiles, g.index_of(p), t, ResourceKind::Energy);
            lemma_count_update(g.tiles, g.index_of(p), t, ResourceKind::Crystal);
            lemma_place_run(g2, kind, (count - 1) as nat, rest, (budget - 1) as nat);
            let r = place_run(g2, kind, (count - 1) as nat, rest, (budget - 1) as nat);
            assert forall|q: Position|
                #[trigger] r.0.tile(q) == g.tile(q) || deposit_placed(g, r.0, q, kind) by {
                lemma_read_after_write(g, p, t, q);
                if r.0.tile(q) == g2.tile(q) {
                    if q == p {
                        assert(deposit_placed(g, r.0, q, kind));
                    }
                } else {
                    assert(deposit_placed(g2, r.0, q, kind));
                }
            }
        } else {
            lemma_place_run(g, kind, count, rest, (budget - 1) as nat);
        }
    }
}

/// Centre of a map of the given size, where the base stands.
pub open spec fn base_of(width: int, height: int) -> Position {
    Position { x: (width / 2) as i32, y: (height / 2) as i32 }
}

/// Terrain of a fresh map before resources: the base at its centre; the cells
/// at distance one or less from it are kept clear; elsewhere an obstacle stands
/// where the obstacle mask (one flag per cell, row-major) is set.
pub open spec fn terrain(width: int, height: int, mask: Seq<bool>, p: Position) -> Tile {
    let g = Grid { width, height, tiles: Seq::empty(), base: base_of(width, height) };
    if p == g.base {
        Tile::Base
    } else if manhattan(p, g.base) <= 1 || !mask[g.index_of(p)] {
        Tile::Empty
    } else {
        Tile::Obstacle
    }
}

/// The position of the `i`-th cell, row-major, on a map `width` wide.
pub open spec fn cell_at(width: int, i: int) -> Position {
    Position { x: (i % width) as i32, y: (i / width) as i32 }
}

/// The terrain of a fresh map as a grid: each cell as `terrain` gives it,
/// the base at the centre.
pub open spec fn terrain_grid(width: int, height: int, mask: Seq<bool>) -> Grid {
    Grid {
        width,
        height,
        tiles: Seq::new((width * height) as nat, |i: int| terrain(width, height, mask, cell_at(width, i))),
        base: base_of(width, height),
    }
}

/// A fresh map: the terrain, then up to sixteen energy deposits placed from
/// `energy_draws`, then up to sixteen crystal deposits from `crystal_draws`,
/// each kind trying at most `16 * 200` draws.
pub open spec fn fresh_map(
    width: int,
    height: int,
    mask: Seq<bool>,
    energy_draws: Seq<(i32, i32, u16)>,
    crystal_draws: Seq<(i32, i32, u16)>,
) -> Grid {
    let with_energy = place_run(
        terrain_grid(width, height, mask),
        ResourceKind::Energy,
        DEPOSITS_PER_KIND as nat,
        energy_draws,
        (DEPOSITS_PER_KIND * DRAWS_PER_DEPOSIT) as nat,
    ).0;
    place_run(
        with_energy,
        ResourceKind::Crystal,
        DEPOSITS_PER_KIND as nat,
        crystal_draws,
        (DEPOSITS_PER_KIND * DRAWS_PER_DEPOSIT) as nat,
    ).0
}

/// The `i`-th cell of a well-formed grid lies on it, at index `i`.
pub proof fn lemma_cell_at(g: Grid, i: int)
    requires
        g.wf(),
        0 <= i < g.tiles.len(),
    ensures
        g.contains(cell_at(g.width, i)),
        g.index_of(cell_at(g.width, i)) == i,
{
    let w = g.width;
    let h = g.height;
    assert(w > 0) by (nonlinear_arith)
        requires
            0 <= i < w * h,
            w >= 0,
            h >= 0,
    ;
    vstd::arithmetic::div_mod::lemma_fundamental_div_mod(i, w);
    let q = i / w;
    let r = i % w;
    assert(0 <= r < w);
    assert(0 <= q < h) by (nonlinear_arith)
        requires
            i == w * q + r,
            0 <= r < w,
            0 <= i < w * h,
            w > 0,
    ;
    assert(q * w == w * q) by (nonlinear_arith);
}

/// Two well-formed grids of one size and base that agree on every cell are equal.
pub proof fn lemma_grid_ext(g1: Grid, g2: Grid)
    requires
        g1.wf(),
        g2.wf(),
        g1.width == g2.width,
        g1.height == g2.height,
        g1.base == g2.base,
        forall|p: Position| g1.contains(p) ==> #[trigger] g1.tile(p) == g2.tile(p),
    ensures
        g1 == g2,
{
    assert forall|i: int| 0 <= i < g1.tiles.len() implies g1.tiles[i] == g2.tiles[i] by {
        lemma_cell_at(g1, i);
        assert(g1.tile(cell_at(g1.width, i)) == g2.tile(cell_at(g1.width, i)));
    }
    assert(g1.tiles =~= g2.tiles);
}

/// The terrain grid is well formed and holds at each cell what `terrain` gives.
pub proof fn lemma_terrain_grid(width: int, height: int, mask: Seq<bool>, p: Position)
    requires
        width >= 0,
        height >= 0,
        width + height <= i32::MAX,
    ensures
        terrain_grid(width, height, mask).wf(),
        terrain_grid(width, height, mask).contains(p) ==> terrain_grid(width, height, mask).tile(p)
            == Some(terrain(width, height, mask, p)),
{
    let g = terrain_grid(width, height, mask);
    assert(width * height >= 0) by (nonlinear_arith)
        requires
            width >= 0,
            height >= 0,
    ;
    if g.contains(p) {
        lemma_index_in_range(g, p);
        let i = g.index_of(p);
        lemma_cell_at(g, i);
        lemma_index_injective(g, cell_at(width, i), p);
    }
}

/// What a fresh map holds: each cell is its terrain, or a deposit of 50 to
/// 200 units on a cell whose terrain is empty; each kind numbers as many
/// deposits as its run placed, at most sixteen, and falls short of sixteen
/// only when its run used up its budget or its draws.
pub proof fn lemma_fresh_map(
    width: int,
    height: int,
    mask: Seq<bool>,
    energy_draws: Seq<(i32, i32, u16)>,
    crystal_draws: Seq<(i32, i32, u16)>,
)
    requires
        width >= 0,
        height >= 0,
        width + height <= i32::MAX,
        amounts_in_range(energy_draws),
        amounts_in_range(crystal_draws),
    ensures
        ({
            let g = fresh_map(width, height, mask, energy_draws, crystal_draws);
            let budget = (DEPOSITS_PER_KIND * DRAWS_PER_DEPOSIT) as nat;
            let energy = place_run(
                terrain_grid(width, height, mask),
                ResourceKind::Energy,
                DEPOSITS_PER_KIND as nat,
                energy_draws,
                budget,
            );
            let crystal = place_run(energy.0, ResourceKind::Crystal, DEPOSITS_PER_KIND as nat, crystal_draws, budget);
            &&& g.wf()
            &&& g.width == width
            &&& g.height == height
            &&& g.base == base_of(width, height)
            &&& forall|p: Position|
                g.contains(p) ==> {
                    ||| #[trigger] g.tile(p) == Some(terrain(width, height, mask, p))
                    ||| g.tile(p) matches Some(Tile::Resource { amount, .. }) && terrain(width, height, mask, p)
                        == Tile::Empty && MIN_DEPOSIT <= amount <= MAX_DEPOSIT
                }
            &&& count_resources(g.tiles, ResourceKind::Energy) == energy.1
            &&& count_resources(g.tiles, ResourceKind::Crystal) == crystal.1
            &&& energy.1 <= DEPOSITS_PER_KIND
            &&& crystal.1 <= DEPOSITS_PER_KIND
            &&& (energy.1 == DEPOSITS_PER_KIND || energy.2 == budget || energy.2 == energy_draws.len())
            &&& (crystal.1 == DEPOSITS_PER_KIND || crystal.2 == budget || crystal.2 == crystal_draws.len())
        }),
{
    let budget = (DEPOSITS_PER_KIND * DRAWS_PER_DEPOSIT) as nat;
    let g1 = terrain_grid(width, height, mask);
    lemma_terrain_grid(width, height, mask, g1.base);
    assert forall|i: int| 0 <= i < g1.tiles.len() implies !(#[trigger] g1.tiles[i] is Resource) by {
        lemma_cell_at(g1, i);
        lemma_terrain_grid(width, height, mask, cell_at(width, i));
    }
    lemma_count_none(g1.tiles, ResourceKind::Energy);
    lemma_count_none(g1.tiles, ResourceKind::Crystal);
    lemma_place_run(g1, ResourceKind::Energy, DEPOSITS_PER_KIND as nat, energy_draws, budget);
    let g2 = place_run(g1, ResourceKind::Energy, DEPOSITS_PER_KIND as nat, energy_draws, budget).0;
    lemma_place_run(g2, ResourceKind::Crystal, DEPOSITS_PER_KIND as nat, crystal_draws, budget);
    let g = fresh_map(width, height, mask, energy_draws, crystal_draws);
    assert forall|p: Position| g.contains(p) implies {
        ||| #[trigger] g.tile(p) == Some(terrain(width, height, mask, p))
        ||| g.tile(p) matches Some(Tile::Resource { amount, .. }) && terrain(width, height, mask, p)
            == Tile::Empty && MIN_DEPOSIT <= amount <= MAX_DEPOSIT
    } by {
        lemma_terrain_grid(width, height, mask, p);
        if g.tile(p) != g2.tile(p) {
            assert(deposit_placed(g2, g, p, ResourceKind::Crystal));
            if g2.tile(p) != g1.tile(p) {
                assert(deposit_placed(g1, g2, p, ResourceKind::Energy));
            }
        } else if g2.tile(p) != g1.tile(p) {
            assert(deposit_placed(g1, g2, p, ResourceKind::Energy));
        }
    }
}

/// Extending the draws of a run that tried all of them and has not stopped
/// yet tries the new draw next: it places that deposit if the cell accepts it.
pub proof fn lemma_place_run_push(
    g: Grid,
    kind: ResourceKind,
    count: nat,
    draws: Seq<(i32, i32, u16)>,
    budget: nat,
    d: (i32, i32, u16),
)
    requires
        place_run(g, kind, count, draws, budget).2 == draws.len(),
        place_run(g, kind, count, draws, budget).1 < count,
        place_run(g, kind, count, draws, budget).2 < budget,
    ensures
        ({
            let r = place_run(g, kind, count, draws, budget);
            place_run(g, kind, count, draws.push(d), budget) == if accepts(r.0, draw_pos(d)) {
                (
                    r.0.with_tile(draw_pos(d), Tile::Resource { kind, amount: d.2 }),
                    r.1 + 1,
                    r.2 + 1,
                )
            } else {
                (r.0, r.1, r.2 + 1)
            }
        }),
    decreases draws.len(),
{
    let e = draws.push(d);
    assert(e[0] == if draws.len() == 0 { d } else { draws[0] });
    if draws.len() == 0 {
        assert(e.drop_first() =~= Seq::<(i32, i32, u16)>::empty());
        let p = draw_pos(d);
        let g2 = g.with_tile(p, Tile::Resource { kind, amount: d.2 });
        assert(place_run(g2, kind, (count - 1) as nat, e.drop_first(), (budget - 1) as nat) == (g2, 0nat, 0nat));
        assert(place_run(g, kind, count, e.drop_first(), (budget - 1) as nat) == (g, 0nat, 0nat));
    } else {
        assert(e.drop_first() =~= draws.drop_first().push(d));
        let p = draw_pos(draws[0]);
        if accepts(g, p) {
            lemma_place_run_push(
                g.with_tile(p, Tile::Resource { kind, amount: draws[0].2 }),
                kind,
                (count - 1) as nat,
                draws.drop_first(),
                (budget - 1) as nat,
                d,
            );
        } else {
            lemma_place_run_push(g, kind, count, draws.drop_first(), (budget - 1) as nat, d);
        }
    }
}

/// Lays the terrain of a fresh map: the base at the centre, and obstacles
/// where `obstacle_mask` is set except next to the base (see `terrain_grid`).
fn lay_terrain(width: usize, height: usize, obstacle_mask: &Vec<bool>) -> (map: WorldMap)
    requires
    width >= 1,
    height >= 1,
    width + height <= i32::MAX,
    width * height <= usize::MAX,
    obstacle_mask@.len() == width * height,
    ensures
    map.wf(),
    map.width == width,
    map.height == height,
    map.base == base_of(width as int, height as int),
    map@ == terrain_grid(width as int, height as int, obstacle_mask@),
    count_resources(map.tiles@, ResourceKind::Energy) == 0,
    count_resources(map.tiles@, ResourceKind::Crystal) == 0,
{
    let base = Position { x: (width as i32) / 2, y: (height as i32) / 2 };
    let mut map = WorldMap { width, height, tiles: vec![Tile::Empty; width * height], base };
    assert forall|i: int| 0 <= i < map.tiles@.len() implies map.tiles@[i] == Tile::Empty by {
        assert(vstd::pervasive::cloned(Tile::Empty, map.tiles@[i]));
    }
    assert forall|p: Position| map@.contains(p) implies #[trigger] map@.tile(p) == Some(Tile::Empty) by {
        crate::model::lemma_index_in_range(map@, p);
    }
    for y in 0..height
        invariant
            map.wf(),
            map.width == width,
            map.height == height,
            map.base == base,
            base == base_of(width as int, height as int),
            obstacle_mask@.len() == width * height,
            forall|i: int| 0 <= i < map.tiles@.len() ==> !(#[trigger] map.tiles@[i] is Resource),
            forall|p: Position|
                map@.contains(p) ==> #[trigger] map@.tile(p) == if p.y < y && p != base {
                    Some(terrain(width as int, height as int, obstacle_mask@, p))
                } else {
                    Some(Tile::Empty)
                },
    {
        for x in 0..width
            invariant
                map.wf(),
                map.width == width,
                map.height == height,
                map.base == base,
                base == base_of(width as int, height as int),
                obstacle_mask@.len() == width * height,
                y < height,
                forall|i: int| 0 <= i < map.tiles@.len() ==> !(#[trigger] map.tiles@[i] is Resource),
                forall|p: Position|
                    map@.contains(p) ==> #[trigger] map@.tile(p) == if (p.y < y || (p.y == y
                        && p.x < x)) && p != base {
                        Some(terrain(width as int, height as int, obstacle_mask@, p))
                    } else {
                        Some(Tile::Empty)
                    },
        {
            let pos = Position { x: x as i32, y: y as i32 };
            let ghost before = map@;
            if pos.manhattan_distance(base) > 1 {
                let i = map.idx(pos);
                if obstacle_mask[i] {
                    map.set_tile(pos, Tile::Obstacle);
                }
            }
            proof {
                assert forall|p: Position| map@.contains(p) implies #[trigger] map@.tile(p) == if (p.y < y || (p.y == y
                        && p.x < x + 1)) && p != base {
                        Some(terrain(width as int, height as int, obstacle_mask@, p))
                    } else {
                        Some(Tile::Empty)
                    } by {
                    crate::model::lemma_read_after_write(before, pos, Tile::Obstacle, p);
                }
            }
        }
    }
    let ghost g0 = map@;
    map.set_tile(base, Tile::Base);
    let ghost g1 = map@;
    let ghost tg = terrain_grid(width as int, height as int, obstacle_mask@);
    proof {
        assert forall|p: Position| map@.contains(p) implies #[trigger] map@.tile(p) == Some(
            terrain(width as int, height as int, obstacle_mask@, p),
        ) by {
            crate::model::lemma_read_after_write(g0, base, Tile::Base, p);
        }
        assert forall|i: int| 0 <= i < g1.tiles.len() implies !(#[trigger] g1.tiles[i] is Resource) by {
            crate::model::lemma_index_in_range(g0, base);
            if i != g0.index_of(base) {
                assert(g1.tiles[i] == g0.tiles[i]);
            }
        }
        lemma_count_none(g1.tiles, ResourceKind::Energy);
        lemma_count_none(g1.tiles, ResourceKind::Crystal);
        lemma_terrain_grid(width as int, height as int, obstacle_mask@, base);
        assert forall|p: Position| g1.contains(p) implies #[trigger] g1.tile(p) == tg.tile(p) by {
            lemma_terrain_grid(width as int, height as int, obstacle_mask@, p);
        }
        lemma_grid_ext(g1, tg);
    }
    map
}

impl WorldMap {
    /// Builds a world from given draws: the base at the centre, obstacles
    /// where `obstacle_mask` (one flag per cell, row-major, computed from a
    /// noise field by the caller) is set except next to the base, then
    /// sixteen energy deposits placed from `energy_draws` and sixteen crystal
    /// deposits from `crystal_draws`, each holding its draw's amount; a kind
    /// falls short of sixteen only when its `16 * 200` draws (or all it was
    /// given) are tried. See `fresh_map`.
    pub fn generate_from(
        width: usize,
        height: usize,
        obstacle_mask: &Vec<bool>,
        energy_draws: &Vec<(i32, i32, u16)>,
        crystal_draws: &Vec<(i32, i32, u16)>,
    ) -> (m: WorldMap)
        requires
            width >= 1,
            height >= 1,
            width + height <= i32::MAX,
            width * height <= usize::MAX,
            obstacle_mask@.len() == width * height,
            amounts_in_range(energy_draws@),
            amounts_in_range(crystal_draws@),
        ensures
            m.wf(),
            m.width == width,
            m.height == height,
            m.base == base_of(width as int, height as int),
            m@ == fresh_map(width as int, height as int, obstacle_mask@, energy_draws@, crystal_draws@),
            forall|p: Position|
                m@.contains(p) ==> {
                    ||| #[trigger] m@.tile(p) == Some(terrain(width as int, height as int, obstacle_mask@, p))
                    ||| m@.tile(p) matches Some(Tile::Resource { amount, .. }) && terrain(
                        width as int,
                        height as int,
                        obstacle_mask@,
                        p,
                    ) == Tile::Empty && MIN_DEPOSIT <= amount <= MAX_DEPOSIT
                },
            ({
                let energy = place_run(
                    terrain_grid(width as int, height as int, obstacle_mask@),
                    ResourceKind::Energy,
                    DEPOSITS_PER_KIND as nat,
                    energy_draws@,
                    (DEPOSITS_PER_KIND * DRAWS_PER_DEPOSIT) as nat,
                );
                let crystal = place_run(
                    energy.0,
                    ResourceKind::Crystal,
                    DEPOSITS_PER_KIND as nat,
                    crystal_draws@,
                    (DEPOSITS_PER_KIND * DRAWS_PER_DEPOSIT) as nat,
                );
                &&& count_resources(m.tiles@, ResourceKind::Energy) == energy.1
                &&& count_resources(m.tiles@, ResourceKind::Crystal) == crystal.1
                &&& (energy.1 == DEPOSITS_PER_KIND || energy.2 == DEPOSITS_PER_KIND * DRAWS_PER_DEPOSIT
                    || energy.2 == energy_draws@.len())
                &&& (crystal.1 == DEPOSITS_PER_KIND || crystal.2 == DEPOSITS_PER_KIND * DRAWS_PER_DEPOSIT
                    || crystal.2 == crystal_draws@.len())
            }),
    {
        let mut map = lay_terrain(width, height, obstacle_mask);
        let ghost g1 = map@;
        map.place_resources_from(ResourceKind::Energy, DEPOSITS_PER_KIND, energy_draws);
        map.place_resources_from(ResourceKind::Crystal, DEPOSITS_PER_KIND, crystal_draws);
        proof {
            lemma_fresh_map(width as int, height as int, obstacle_mask@, energy_draws@, crystal_draws@);
        }
        map
    }

    /// Builds a world: the base at the centre, obstacles where
    /// `obstacle_mask` (one flag per cell, row-major, computed from a noise
    /// field by the caller) is set except next to the base, then up to
    /// sixteen energy and then up to sixteen crystal deposits placed at
    /// random as `place_resources` does. The draws it made give the map as
    /// `fresh_map` does; a kind falls short of sixteen only after all its
    /// `16 * 200` attempts.
    pub fn generate(width: usize, height: usize, obstacle_mask: &Vec<bool>, rng: &mut StdRng) -> (m:
        WorldMap)
        requires
            width >= 1,
            height >= 1,
            width + height <= i32::MAX,
            width * height <= usize::MAX,
            obstacle_mask@.len() == width * height,
        ensures
            m.wf(),
            m.width == width,
            m.height == height,
            m.base == base_of(width as int, height as int),
            exists|energy_draws: Seq<(i32, i32, u16)>, crystal_draws: Seq<(i32, i32, u16)>|
                {
                    &&& energy_draws.len() <= DEPOSITS_PER_KIND * DRAWS_PER_DEPOSIT
                    &&& crystal_draws.len() <= DEPOSITS_PER_KIND * DRAWS_PER_DEPOSIT
                    &&& draws_fit(energy_draws, width as int, height as int)
                    &&& draws_fit(crystal_draws, width as int, height as int)
                    &&& m@ == #[trigger] fresh_map(
                        width as int,
                        height as int,
                        obstacle_mask@,
                        energy_draws,
                        crystal_draws,
                    )
                    &&& (count_resources(m.tiles@, ResourceKind::Energy) == DEPOSITS_PER_KIND
                        || energy_draws.len() == DEPOSITS_PER_KIND * DRAWS_PER_DEPOSIT)
                    &&& (count_resources(m.tiles@, ResourceKind::Crystal) == DEPOSITS_PER_KIND
                        || crystal_draws.len() == DEPOSITS_PER_KIND * DRAWS_PER_DEPOSIT)
                },
            forall|p: Position|
                m@.contains(p) ==> {
                    ||| #[trigger] m@.tile(p) == Some(terrain(width as int, height as int, obstacle_mask@, p))
                    ||| m@.tile(p) matches Some(Tile::Resource { amount, .. }) && terrain(
                        width as int,
                        height as int,
                        obstacle_mask@,
                        p,
                    ) == Tile::Empty && MIN_DEPOSIT <= amount <= MAX_DEPOSIT
                },
            count_resources(m.tiles@, ResourceKind::Energy) <= DEPOSITS_PER_KIND,
            count_resources(m.tiles@, ResourceKind::Crystal) <= DEPOSITS_PER_KIND,
    {
        let mut m = lay_terrain(width, height, obstacle_mask);
        let ghost g1 = m@;
        m.place_resources(ResourceKind::Energy, DEPOSITS_PER_KIND, rng);
        let ghost g2 = m@;
        m.place_resources(ResourceKind::Crystal, DEPOSITS_PER_KIND, rng);
        proof {
            let budget = (DEPOSITS_PER_KIND * DRAWS_PER_DEPOSIT) as nat;
            let n = DEPOSITS_PER_KIND as nat;
            let ed = choose|draws: Seq<(i32, i32, u16)>|
                {
                    let r = #[trigger] place_run(g1, ResourceKind::Energy, n, draws, budget);
                    &&& draws_fit(draws, width as int, height as int)
                    &&& g2 == r.0
                    &&& r.2 == draws.len()
                    &&& (r.1 == DEPOSITS_PER_KIND || draws.len() == DEPOSITS_PER_KIND * DRAWS_PER_DEPOSIT)
                };
            let cd = choose|draws: Seq<(i32, i32, u16)>|
                {
                    let r = #[trigger] place_run(g2, ResourceKind::Crystal, n, draws, budget);
                    &&& draws_fit(draws, width as int, height as int)
                    &&& m@ == r.0
                    &&& r.2 == draws.len()
                    &&& (r.1 == DEPOSITS_PER_KIND || draws.len() == DEPOSITS_PER_KIND * DRAWS_PER_DEPOSIT)
                };
            lemma_place_run(g1, ResourceKind::Energy, n, ed, budget);
            lemma_place_run(g2, ResourceKind::Crystal, n, cd, budget);
            lemma_fresh_map(width as int, height as int, obstacle_mask@, ed, cd);
            assert(m@ == fresh_map(width as int, height as int, obstacle_mask@, ed, cd));
        }
        m
    }

    /// Whether a fresh deposit may go at `pos`: the cell lies on the map, is
    /// empty, and is not the base.
    pub fn accepts_deposit(&self, pos: Position) -> (r: bool)
        requires
            self.wf(),
        ensures
            r == accepts(self@, pos),
    {
        if pos == self.base {
            return false;
        }
        matches!(self.tile_at(pos), Some(Tile::Empty))
    }

    /// Places up to `count` deposits of one kind from `draws`, tried in order,
    /// giving up after `count * 200` draws (see `place_run`). Returns the
    /// number of draws tried.
    pub fn place_resources_from(&mut self, kind: ResourceKind, count: usize, draws: &Vec<(i32, i32, u16)>) -> (used: usize)
        requires
            old(self).wf(),
            count * DRAWS_PER_DEPOSIT <= usize::MAX,
            amounts_in_range(draws@),
        ensures
            final(self).wf(),
            final(self).width == old(self).width,
            final(self).height == old(self).height,
            final(self).base == old(self).base,
            final(self)@ == place_run(old(self)@, kind, count as nat, draws@, (count * DRAWS_PER_DEPOSIT) as nat).0,
            used == place_run(old(self)@, kind, count as nat, draws@, (count * DRAWS_PER_DEPOSIT) as nat).2,
    {
        let ghost before = self@;
        let budget = count * DRAWS_PER_DEPOSIT;
        let mut placed: usize = 0;
        let mut attempts: usize = 0;
        assert(draws@.skip(0) =~= draws@);
        while placed < count && attempts < budget && attempts < draws.len()
            invariant
                self.wf(),
                self.width == old(self).width,
                self.height == old(self).height,
                self.base == old(self).base,
                before == old(self)@,
                budget == count * DRAWS_PER_DEPOSIT,
                placed <= count,
                attempts <= budget,
                attempts <= draws@.len(),
                ({
                    let r = place_run(
                        self@,
                        kind,
                        (count - placed) as nat,
                        draws@.skip(attempts as int),
                        (budget - attempts) as nat,
                    );
                    let whole = place_run(before, kind, count as nat, draws@, budget as nat);
                    r.0 == whole.0 && r.2 + attempts == whole.2
                }),
            decreases draws@.len() - attempts,
        {
            let d = draws[attempts];
            let pos = Position { x: d.0, y: d.1 };
            let ghost tail = draws@.skip(attempts as int);
            proof {
                assert(tail[0] == d);
                assert(tail.drop_first() =~= draws@.skip(attempts + 1));
            }
            if self.accepts_deposit(pos) {
                self.set_tile(pos, Tile::Resource { kind, amount: d.2 });
                placed += 1;
            }
            attempts += 1;
        }
        attempts
    }

    /// Adds up to `count` resources of one kind on empty tiles other than the
    /// base: for each attempt it draws a column and a row at random, and, when
    /// that cell accepts a deposit, an amount from 50 to 200; it stops once
    /// `count` are placed or after `count * 200` attempts. The draws it made
    /// (with any amount for a refused cell) give its result as `place_run` does.
    pub fn place_resources(&mut self, kind: ResourceKind, count: usize, rng: &mut StdRng)
        requires
            old(self).wf(),
            count * DRAWS_PER_DEPOSIT <= usize::MAX,
            count == 0 || (old(self).width > 0 && old(self).height > 0),
        ensures
            final(self).wf(),
            final(self).width == old(self).width,
            final(self).height == old(self).height,
            final(self).base == old(self).base,
            exists|draws: Seq<(i32, i32, u16)>|
                {
                    let r = #[trigger] place_run(
                        old(self)@,
                        kind,
                        count as nat,
                        draws,
                        (count * DRAWS_PER_DEPOSIT) as nat,
                    );
                    &&& draws_fit(draws, old(self).width as int, old(self).height as int)
                    &&& final(self)@ == r.0
                    &&& r.2 == draws.len()
                    &&& (r.1 == count || draws.len() == count * DRAWS_PER_DEPOSIT)
                },
    {
        let ghost before = self@;
        let ghost mut drawn: Seq<(i32, i32, u16)> = Seq::empty();
        let budget = count * DRAWS_PER_DEPOSIT;
        let mut placed: usize = 0;
        let mut attempts: usize = 0;
        while placed < count && attempts < budget
            invariant
                self.wf(),
                self.width == old(self).width,
                self.height == old(self).height,
                self.base == old(self).base,
                before == old(self)@,
                budget == count * DRAWS_PER_DEPOSIT,
                count == 0 || (self.width > 0 && self.height > 0),
                placed <= count,
                attempts <= budget,
                drawn.len() == attempts,
                draws_fit(drawn, self.width as int, self.height as int),
                place_run(before, kind, count as nat, drawn, budget as nat) == (
                    self@,
                    placed as nat,
                    attempts as nat,
                ),
            decreases budget - attempts,
        {
            let x = random_i32_below(rng, 0, self.width as i32);
            let y = random_i32_below(rng, 0, self.height as i32);
            let pos = Position { x, y };
            if self.accepts_deposit(pos) {
                let amount = random_u16_through(rng, MIN_DEPOSIT, MAX_DEPOSIT);
                proof {
                    lemma_place_run_push(before, kind, count as nat, drawn, budget as nat, (x, y, amount));
                    drawn = drawn.push((x, y, amount));
                }
                self.set_tile(pos, Tile::Resource { kind, amount });
                placed += 1;
            } else {
                proof {
                    lemma_place_run_push(before, kind, count as nat, drawn, budget as nat, (x, y, MIN_DEPOSIT));
                    drawn = drawn.push((x, y, MIN_DEPOSIT));
                }
            }
            attempts += 1;
        }
        proof {
            let r = place_run(old(self)@, kind, count as nat, drawn, (count * DRAWS_PER_DEPOSIT) as nat);
            assert(r.0 == self@ && r.1 == placed && r.2 == drawn.len());
        }
    }
}

} // verus!
