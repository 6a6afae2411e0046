use std::collections::HashSet;

use openmc::world::chunk::{ChunkData, CHUNK_SIZE, GRASS, PADDED_SIZE, STONE, WATER};
use openmc::world::mesher::{build_chunk_mesh, greedy_merge, Face, Mask};

/// Every set bit in the mask, as `(a, b)` coordinates.
fn set_bits(mask: &Mask) -> HashSet<(usize, usize)> {
    let mut set = HashSet::new();
    for (b, row) in mask.iter().enumerate() {
        for a in 0..CHUNK_SIZE {
            if (row >> a) & 1 == 1 {
                set.insert((a, b));
            }
        }
    }
    set
}

/// Every emitted rectangle only covers set cells, no two overlap, and every
/// set cell is covered.
fn check_merge_is_correct(mask: Mask) {
    let expected = set_bits(&mask);
    let mut covered = HashSet::new();

    for rect in greedy_merge(mask) {
        let (a, width, b, height) = (rect.a, rect.width, rect.b, rect.height);
        for db in 0..height {
            for da in 0..width {
                let cell = (a + da, b + db);
                assert!(
                    expected.contains(&cell),
                    "rectangle (a={a}, width={width}, b={b}, height={height}) covers unset cell {cell:?}"
                );
                assert!(covered.insert(cell), "cell {cell:?} covered by more than one emitted rectangle");
            }
        }
    }

    assert_eq!(covered, expected, "merged rectangles don't cover exactly the set bits in the mask");
}

#[test]
fn empty_mask_emits_nothing() {
    check_merge_is_correct([0; CHUNK_SIZE]);
}

#[test]
fn full_mask_merges_into_one_rectangle() {
    let mask: Mask = [u32::MAX; CHUNK_SIZE];
    let count = greedy_merge(mask).len();
    assert_eq!(count, 1, "a fully solid layer should merge into a single rectangle");
    check_merge_is_correct(mask);
}

#[test]
fn single_cell() {
    let mut mask: Mask = [0; CHUNK_SIZE];
    mask[5] = 1 << 3;
    check_merge_is_correct(mask);
}

#[test]
fn checkerboard_has_no_two_by_two_merges() {
    let mut mask: Mask = [0; CHUNK_SIZE];
    for b in 0..CHUNK_SIZE {
        for a in 0..CHUNK_SIZE {
            if (a + b) % 2 == 0 {
                mask[b] |= 1 << a;
            }
        }
    }
    check_merge_is_correct(mask);
}

#[test]
fn run_touching_the_top_bit_does_not_overcount_width() {
    let mut mask: Mask = [0; CHUNK_SIZE];
    mask[0] = 0xF000_0000; // bits 28..=31 set
    check_merge_is_correct(mask);
}

#[test]
fn random_masks_are_always_correct() {
    fastrand::seed(1337);
    for _ in 0..500 {
        let mut mask: Mask = [0; CHUNK_SIZE];
        for row in mask.iter_mut() {
            *row = fastrand::u32(..);
        }
        check_merge_is_correct(mask);
    }
}

#[test]
fn greedy_merge_exact_rectangles() {
    let mut mask: Mask = [0; CHUNK_SIZE];
    mask[2] = 0b0111_0000;
    mask[3] = 0b0111_0000;
    mask[4] = 0b0011_0000;
    let rects = greedy_merge(mask);
    assert_eq!(rects.len(), 2);
    assert_eq!((rects[0].a, rects[0].width, rects[0].b, rects[0].height), (4, 3, 2, 2));
    assert_eq!((rects[1].a, rects[1].width, rects[1].b, rects[1].height), (4, 2, 4, 1));
}

/// Builds a chunk with a stone half and a grass half at the same height and
/// confirms every vertex of the mesh belongs to a pure stone or grass quad.
#[test]
fn different_block_types_never_share_a_merged_quad() {
    let mut data = ChunkData::empty();
    for padded_x in 0..PADDED_SIZE {
        for padded_z in 0..PADDED_SIZE {
            for y in 0..=CHUNK_SIZE {
                if y >= CHUNK_SIZE / 2 {
                    continue; // air above the halfway point
                }
                let is_top = y == CHUNK_SIZE / 2 - 1;
                let block = if is_top && padded_x < PADDED_SIZE / 2 {
                    STONE
                } else if is_top {
                    GRASS
                } else {
                    STONE
                };
                data.set_padded(padded_x, y, padded_z, block);
            }
        }
    }

    let mesh = build_chunk_mesh(&data);
    for block in &mesh.blocks {
        assert!(
            *block == STONE || *block == GRASS,
            "found a vertex of block type {block} that isn't stone or grass"
        );
    }
    assert!(mesh.blocks.contains(&STONE));
    assert!(mesh.blocks.contains(&GRASS));
}

#[test]
fn an_empty_chunk_has_no_geometry() {
    let mesh = build_chunk_mesh(&ChunkData::empty());
    assert!(!mesh.has_geometry());
    assert!(mesh.positions.is_empty());
}

#[test]
fn a_lone_block_gets_five_faces_and_no_underside() {
    let mut data = ChunkData::empty();
    data.set_padded(4, 7, 9, WATER); // local (3, 7, 8)
    let mesh = build_chunk_mesh(&data);
    assert_eq!(mesh.positions.len(), 20);
    assert_eq!(mesh.indices.len(), 30);
    assert_eq!(mesh.indices[0..6], [0, 1, 2, 0, 2, 3]);
    assert_eq!(mesh.indices[24..30], [16, 17, 18, 16, 18, 19]);
    // Up face first, at the top of the block.
    assert_eq!(mesh.positions[0], (3, 8, 8));
    assert_eq!(mesh.positions[1], (3, 8, 9));
    assert_eq!(mesh.positions[2], (4, 8, 9));
    assert_eq!(mesh.positions[3], (4, 8, 8));
    assert_eq!(mesh.normals[0], (0, 1, 0));
    let normals: HashSet<(i32, i32, i32)> = mesh.normals.iter().copied().collect();
    assert!(!normals.contains(&(0, -1, 0)));
    assert_eq!(normals.len(), 5);
    assert!(mesh.blocks.iter().all(|b| *b == WATER));
    // Faces come by direction: up, right, left, front, back.
    let order: Vec<(i32, i32, i32)> = mesh.normals.iter().step_by(4).copied().collect();
    let expected: Vec<(i32, i32, i32)> = [Face::Up, Face::Right, Face::Left, Face::Front, Face::Back]
        .iter()
        .map(|f| f.normal())
        .collect();
    assert_eq!(order, expected);
}

#[test]
fn quads_of_one_layer_come_by_block_type() {
    // Two separate blocks on one layer, grass at x = 0 and stone at x = 5:
    // the stone quad (type 1) comes before the grass one (type 2).
    let mut data = ChunkData::empty();
    data.set_padded(1, 3, 1, GRASS);
    data.set_padded(6, 3, 1, STONE);
    let mesh = build_chunk_mesh(&data);
    assert_eq!(mesh.normals[0], (0, 1, 0));
    assert_eq!(mesh.blocks[0], STONE);
    assert_eq!(mesh.positions[0], (5, 4, 0));
    assert_eq!(mesh.normals[4], (0, 1, 0));
    assert_eq!(mesh.blocks[4], GRASS);
    assert_eq!(mesh.positions[4], (0, 4, 0));
}

#[test]
fn buried_faces_are_culled_against_the_padding() {
    // A full solid padded chunk: every face touches another opaque block,
    // except nothing (the padding layer on top is solid too).
    let mut data = ChunkData::empty();
    for px in 0..PADDED_SIZE {
        for pz in 0..PADDED_SIZE {
            for y in 0..=CHUNK_SIZE {
                data.set_padded(px, y, pz, STONE);
            }
        }
    }
    let mesh = build_chunk_mesh(&data);
    assert!(!mesh.has_geometry());
}

#[test]
fn a_flat_floor_merges_into_one_top_quad() {
    let mut data = ChunkData::empty();
    for px in 0..PADDED_SIZE {
        for pz in 0..PADDED_SIZE {
            data.set_padded(px, 0, pz, GRASS);
        }
    }
    let mesh = build_chunk_mesh(&data);
    // One top quad; the sides all touch the padding's grass.
    assert_eq!(mesh.positions.len(), 4);
    assert_eq!(mesh.positions[0], (0, 1, 0));
    assert_eq!(mesh.positions[2], (32, 1, 32));
}

#[test]
fn every_index_names_a_vertex_of_the_mesh() {
    let heights: Vec<i32> = (0..PADDED_SIZE * PADDED_SIZE).map(|i| (i % 23) as i32).collect();
    let data = openmc::world::generator::generate_chunk(
        openmc::world::chunk::ChunkPos::new(0, 0, 0),
        &heights,
    );
    let mesh = build_chunk_mesh(&data);
    assert!(mesh.has_geometry());
    assert_eq!(mesh.positions.len() * 6, mesh.indices.len() * 4);
    assert!(mesh.indices.iter().all(|&i| (i as usize) < mesh.positions.len()));
}

#[test]
fn generated_terrain_has_no_open_undersides() {
    let heights: Vec<i32> = (0..PADDED_SIZE * PADDED_SIZE).map(|i| (i % 37) as i32 - 3).collect();
    let data = openmc::world::generator::generate_chunk(
        openmc::world::chunk::ChunkPos::new(1, 0, 1),
        &heights,
    );
    for x in 0..CHUNK_SIZE {
        for z in 0..CHUNK_SIZE {
            for y in 1..CHUNK_SIZE {
                if openmc::world::chunk::is_opaque(data.get(x, y, z)) {
                    assert!(openmc::world::chunk::is_opaque(data.get(x, y - 1, z)));
                }
            }
        }
    }
}
