use openmc::world::chunk::{
    ChunkData, ChunkPos, AIR, GRASS, PADDED_HEIGHT, PADDED_SIZE, SAND, STONE, WATER,
};
use openmc::world::generator::{
    block_at, generate_chunk, padded_columns, MIN_STONE_SURFACE, SAND_MARGIN, WATER_LEVEL,
};

/// The generator's stone threshold, `BASE_HEIGHT + TERRAIN_HEIGHT * 0.7`.
const STONE_HEIGHT: f64 = 10.0 + 16.0 * 0.7;

#[test]
fn deep_underground_is_always_stone() {
    assert_eq!(block_at(20, -1000), STONE);
    assert_eq!(block_at(-5, -1000), STONE);
}

#[test]
fn far_above_the_surface_is_air() {
    assert_eq!(block_at(20, 1000), AIR);
}

#[test]
fn low_dry_land_gets_a_sandy_shore() {
    // Surface height within SAND_MARGIN of WATER_LEVEL, and above it (dry).
    let height = WATER_LEVEL + SAND_MARGIN;
    assert_eq!(block_at(height, height - 1), SAND);
}

#[test]
fn underwater_floor_is_always_sand() {
    // Surface height below WATER_LEVEL: the top solid block (lake/ocean
    // floor) is sand, and everything from there up to WATER_LEVEL is water.
    let height = WATER_LEVEL - 3;
    assert_eq!(block_at(height, height - 1), SAND, "lakebed should be sandy");
    assert_eq!(block_at(height, height), WATER);
    assert_eq!(block_at(height, WATER_LEVEL - 1), WATER);
    assert_eq!(block_at(height, WATER_LEVEL), AIR);
}

#[test]
fn high_peaks_are_stone() {
    let height = STONE_HEIGHT.ceil() as i32;
    assert_eq!(height, MIN_STONE_SURFACE);
    assert_eq!(block_at(height, height - 1), STONE);
}

#[test]
fn mid_elevation_is_grass() {
    // Comfortably between the sand band and the stone threshold.
    let height = ((WATER_LEVEL + SAND_MARGIN) as f64 + STONE_HEIGHT) as i32 / 2;
    assert_eq!(block_at(height, height - 1), GRASS);
}

#[test]
fn only_the_exact_top_layer_gets_a_special_type() {
    let height = 20;
    for world_y in 0..height - 1 {
        assert_eq!(block_at(height, world_y), STONE, "below the top layer should be plain stone");
    }
}

#[test]
fn the_stone_threshold_is_exact() {
    assert_eq!(block_at(MIN_STONE_SURFACE - 1, MIN_STONE_SURFACE - 2), GRASS);
    assert_eq!(block_at(MIN_STONE_SURFACE, MIN_STONE_SURFACE - 1), STONE);
    assert_eq!(block_at(WATER_LEVEL + SAND_MARGIN + 1, WATER_LEVEL + SAND_MARGIN), GRASS);
}

#[test]
fn dry_high_columns_have_air_above_and_no_water() {
    for world_y in 30..60 {
        assert_eq!(block_at(30, world_y), AIR);
    }
}

#[test]
fn padded_columns_start_one_block_outside_the_chunk() {
    let cols = padded_columns(ChunkPos::new(2, 0, -1));
    assert_eq!(cols.len(), PADDED_SIZE * PADDED_SIZE);
    assert_eq!(cols[0], (63, -33));
    assert_eq!(cols[1], (63, -32));
    assert_eq!(cols[PADDED_SIZE], (64, -33));
    assert_eq!(cols[PADDED_SIZE * PADDED_SIZE - 1], (96, 0));
}

#[test]
fn generated_chunk_follows_the_terrain_rules() {
    let mut heights = vec![0i32; PADDED_SIZE * PADDED_SIZE];
    for (i, h) in heights.iter_mut().enumerate() {
        *h = (i % 40) as i32;
    }
    let pos = ChunkPos::new(0, 0, 0);
    let data: ChunkData = generate_chunk(pos, &heights);
    for px in 0..PADDED_SIZE {
        for pz in 0..PADDED_SIZE {
            for y in 0..PADDED_HEIGHT {
                let h = heights[px * PADDED_SIZE + pz];
                assert_eq!(data.get_padded(px, y, pz), block_at(h, y as i32));
            }
        }
    }
}

#[test]
fn a_chunk_below_the_surface_is_all_stone() {
    let heights = vec![20i32; PADDED_SIZE * PADDED_SIZE];
    let data = generate_chunk(ChunkPos::new(3, -2, 7), &heights);
    for x in 0..32 {
        for y in 0..32 {
            for z in 0..32 {
                assert_eq!(data.get(x, y, z), STONE);
            }
        }
    }
}

/// A deterministic stand-in for the noise heightmap: any function of the
/// world column works.
fn test_surface(x: i32, z: i32) -> i32 {
    (x * 7 + z * 3).rem_euclid(40) - 5
}

fn generate_from_test_surface(pos: ChunkPos) -> ChunkData {
    let heights: Vec<i32> = padded_columns(pos)
        .into_iter()
        .map(|(x, z)| test_surface(x, z))
        .collect();
    generate_chunk(pos, &heights)
}

#[test]
fn neighbouring_chunks_agree_on_their_shared_border() {
    let a = generate_from_test_surface(ChunkPos::new(2, 0, -1));
    let east = generate_from_test_surface(ChunkPos::new(3, 0, -1));
    let south = generate_from_test_surface(ChunkPos::new(2, 0, 0));
    let above = generate_from_test_surface(ChunkPos::new(2, 1, -1));
    for y in 0..PADDED_HEIGHT {
        for p in 0..PADDED_SIZE {
            assert_eq!(a.get_padded(33, y, p), east.get_padded(1, y, p));
            assert_eq!(a.get_padded(32, y, p), east.get_padded(0, y, p));
            assert_eq!(a.get_padded(p, y, 33), south.get_padded(p, y, 1));
            assert_eq!(a.get_padded(p, y, 32), south.get_padded(p, y, 0));
        }
    }
    for px in 0..PADDED_SIZE {
        for pz in 0..PADDED_SIZE {
            assert_eq!(a.get_padded(px, 32, pz), above.get_padded(px, 0, pz));
        }
    }
}
