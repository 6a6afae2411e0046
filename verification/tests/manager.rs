use openmc::world::chunk::{BlockPos, ChunkData, ChunkPos, PADDED_SIZE, STONE, WATER};
use openmc::world::generator::generate_chunk;
use openmc::world::manager::{
    fixed_debug_chunks, is_desired, reset, ChunkManager, CHUNKS_PER_FRAME,
};

fn flat_chunk(surface: i32) -> ChunkData {
    generate_chunk(ChunkPos::new(0, 0, 0), &vec![surface; PADDED_SIZE * PADDED_SIZE])
}

#[test]
fn entering_a_chunk_queues_the_whole_window() {
    let mut manager = ChunkManager::new();
    let unloaded = manager.update_player_chunk(ChunkPos::new(0, 0, 0));
    assert!(unloaded.is_empty());
    assert_eq!(manager.last_player_chunk(), Some(ChunkPos::new(0, 0, 0)));
    let mut count = 0;
    for x in -6..=6 {
        for y in -6..=2 {
            for z in -6..=6 {
                let pos = ChunkPos::new(x, y, z);
                let wanted = x.abs() <= 4 && z.abs() <= 4 && (-4..=0).contains(&y);
                assert_eq!(manager.is_pending(pos), wanted, "{pos:?}");
                assert_eq!(is_desired(ChunkPos::new(0, 0, 0), pos), wanted);
                if wanted {
                    count += 1;
                }
            }
        }
    }
    assert_eq!(count, 9 * 9 * 5);
    // Staying in the same chunk changes nothing.
    assert!(manager.update_player_chunk(ChunkPos::new(0, 0, 0)).is_empty());
}

#[test]
fn chunks_load_a_few_per_frame_in_queue_order() {
    let mut manager = ChunkManager::new();
    manager.update_player_chunk(ChunkPos::new(0, 0, 0));
    let batch = manager.take_pending_batch();
    assert_eq!(batch.len(), CHUNKS_PER_FRAME);
    for pos in &batch {
        assert!(!manager.is_pending(*pos));
        manager.insert_loaded(*pos, None, flat_chunk(10));
        assert!(manager.is_loaded(*pos));
    }
    let next = manager.take_pending_batch();
    assert_eq!(next.len(), CHUNKS_PER_FRAME);
    assert!(next.iter().all(|p| !batch.contains(p)));
}

#[test]
fn an_empty_queue_yields_an_empty_batch() {
    let mut manager = ChunkManager::new();
    assert!(manager.take_pending_batch().is_empty());
}

#[test]
fn moving_away_unloads_what_left_the_window() {
    let mut manager = ChunkManager::new();
    manager.update_player_chunk(ChunkPos::new(0, 0, 0));
    let near = ChunkPos::new(0, 0, 0);
    let edge = ChunkPos::new(-4, 0, 0);
    manager.take_pending_batch();
    // Load two chunks directly (they left the queue above or are re-queued below).
    let mut manager = ChunkManager::new();
    manager.insert_loaded(near, Some(7), flat_chunk(10));
    manager.insert_loaded(edge, Some(9), flat_chunk(10));
    manager.update_player_chunk(ChunkPos::new(0, 0, 0));
    assert!(!manager.is_pending(near));
    let unloaded = manager.update_player_chunk(ChunkPos::new(1, 0, 0));
    assert_eq!(unloaded.len(), 1);
    assert_eq!(unloaded[0].pos, edge);
    assert_eq!(unloaded[0].entity, Some(9));
    assert!(!manager.is_loaded(edge));
    assert!(manager.is_loaded(near));
    assert!(manager.is_pending(ChunkPos::new(5, 0, 0)));
    assert!(!manager.is_pending(ChunkPos::new(-4, 0, 0)));
}

#[test]
fn solidity_reads_loaded_block_data() {
    let mut manager = ChunkManager::new();
    manager.insert_loaded(ChunkPos::new(0, 0, 0), None, flat_chunk(5));
    // Below the surface: stone and the sandy top layer are solid.
    assert!(manager.is_solid(BlockPos { x: 3, y: 0, z: 3 }));
    assert!(manager.is_solid(BlockPos { x: 3, y: 4, z: 3 }));
    // Water up to the water level is not solid, nor is air above it.
    assert!(!manager.is_solid(BlockPos { x: 3, y: 6, z: 3 }));
    assert!(!manager.is_solid(BlockPos { x: 3, y: 20, z: 3 }));
    // Unloaded chunks are never solid.
    assert!(!manager.is_solid(BlockPos { x: -1, y: 0, z: 3 }));
    assert!(!manager.is_solid(BlockPos { x: 3, y: -1, z: 3 }));
}

#[test]
fn negative_coordinates_floor_into_their_chunk() {
    let mut manager = ChunkManager::new();
    manager.insert_loaded(ChunkPos::new(-1, -1, -1), None, flat_chunk(-40));
    // Block (-1, -33, -1) is chunk (-1, -2, -1): not loaded.
    assert!(!manager.is_solid(BlockPos { x: -1, y: -33, z: -1 }));
    // Block (-32, -32, -32) is local (0, 0, 0) of chunk (-1, -1, -1); the
    // generated data used origin y = 0, so local y 0 is air at surface -40.
    assert!(!manager.is_solid(BlockPos { x: -32, y: -32, z: -32 }));
    let mut solid = ChunkManager::new();
    solid.insert_loaded(ChunkPos::new(-1, -1, -1), None, flat_chunk(40));
    assert!(solid.is_solid(BlockPos { x: -32, y: -32, z: -32 }));
    assert!(solid.is_solid(BlockPos { x: -1, y: -1, z: -1 }));
}

#[test]
fn reset_starts_empty() {
    let manager = reset();
    assert_eq!(manager.last_player_chunk(), None);
    assert!(!manager.is_pending(ChunkPos::new(0, 0, 0)));
    let grid = fixed_debug_chunks();
    assert_eq!(grid[3], ChunkPos::new(1, 0, 1));
    let _ = (STONE, WATER);
}

#[test]
fn a_swept_box_hits_the_nearest_solid_block() {
    let mut manager = ChunkManager::new();
    // Surface at 10: blocks at y 0..=9 are solid, air above.
    manager.insert_loaded(ChunkPos::new(0, 0, 0), None, flat_chunk(10));
    let column_lo = BlockPos { x: 3, y: 5, z: 3 };
    let column_hi = BlockPos { x: 3, y: 20, z: 3 };
    // Falling: the highest solid block stops the box.
    assert_eq!(manager.nearest_solid(column_lo, column_hi, 1, false), Some(9));
    // Rising: the lowest solid block stops it.
    assert_eq!(manager.nearest_solid(column_lo, column_hi, 1, true), Some(5));
    // All air above the surface.
    let sky_lo = BlockPos { x: 0, y: 10, z: 0 };
    let sky_hi = BlockPos { x: 31, y: 31, z: 31 };
    assert_eq!(manager.nearest_solid(sky_lo, sky_hi, 1, false), None);
    // A box reaching into an unloaded chunk sees nothing solid there.
    let west_lo = BlockPos { x: -5, y: 0, z: 0 };
    let west_hi = BlockPos { x: 2, y: 0, z: 0 };
    assert_eq!(manager.nearest_solid(west_lo, west_hi, 0, false), Some(2));
    assert_eq!(manager.nearest_solid(west_lo, west_hi, 0, true), Some(0));
    let outside_hi = BlockPos { x: -1, y: 5, z: 0 };
    assert_eq!(manager.nearest_solid(west_lo, outside_hi, 0, true), None);
}

#[test]
fn a_frame_loads_exactly_its_batch() {
    let mut manager = ChunkManager::new();
    manager.update_player_chunk(ChunkPos::new(0, 0, 0));
    let batch = manager.take_pending_batch();
    assert_eq!(batch.len(), CHUNKS_PER_FRAME);
    let heights = vec![40i32; PADDED_SIZE * PADDED_SIZE];
    for pos in &batch {
        let data = generate_chunk(*pos, &heights);
        manager.insert_loaded(*pos, None, data);
    }
    for pos in &batch {
        assert!(manager.is_loaded(*pos));
        assert!(!manager.is_pending(*pos));
        // Each chunk holds the data generated for it: everything in a chunk
        // at or below layer 0 is solid under a surface at 40.
        let origin = pos.world_origin();
        assert!(manager.is_solid(BlockPos { x: origin.x, y: origin.y, z: origin.z }));
    }
    let next = manager.take_pending_batch();
    assert!(next.iter().all(|p| !batch.contains(p) && !manager.is_loaded(*p)));
}
