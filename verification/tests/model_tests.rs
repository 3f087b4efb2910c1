use noise::{NoiseFn, Perlin};
use rand::rngs::StdRng;
use rand::{Rng, SeedableRng};

use resource_collection_tui::model::{ResourceKind, RobotKind, Tile, WorldMap};

/// Row-major obstacle flags from Perlin noise, as the application computes them.
fn obstacle_mask(width: usize, height: usize, seed: u32) -> Vec<bool> {
    let perlin = Perlin::new(seed);
    let mut mask = Vec::with_capacity(width * height);
    for y in 0..height {
        for x in 0..width {
            mask.push(perlin.get([x as f64 / 9.0, y as f64 / 9.0]) > 0.25);
        }
    }
    mask
}

#[test]
fn generated_resources_have_expected_amount_range() {
    let mut rng = StdRng::seed_from_u64(42);
    let seed: u32 = rng.random();
    let mask = obstacle_mask(30, 15, seed);
    let map = WorldMap::generate(30, 15, &mask, &mut rng);
    let mut energy_count = 0;
    let mut crystal_count = 0;
    for tile in &map.tiles {
        if let Tile::Resource { kind, amount } = tile {
            assert!((50..=200).contains(amount));
            match kind {
                ResourceKind::Energy => energy_count += 1,
                ResourceKind::Crystal => crystal_count += 1,
            }
        }
    }
    assert!(energy_count > 0);
    assert!(crystal_count > 0);
}

#[test]
fn scout_cannot_collect_resources() {
    assert!(!RobotKind::Scout.can_collect());
    assert!(RobotKind::Collector.can_collect());
}
