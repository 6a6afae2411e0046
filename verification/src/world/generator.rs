//! Terrain rules: which block sits at each height of a column, and filling a
//! chunk's padded block array from a column heightmap.
//!
//! The heightmap itself comes from layered Perlin noise, sampled outside the
//! library (floating point); everything that turns heights into blocks is
//! here.

use vstd::prelude::*;
use super::chunk::{
    in_padded_box, lemma_padded_index_in_box, lemma_padded_index_injective, opaque, padded_index,
    BlockId, ChunkData, ChunkPos, AIR, BLOCK_TYPE_COUNT, GRASS, PADDED_HEIGHT, PADDED_SIZE, PADDING,
    SAND, STONE, WATER,
};

verus! {

/// World Y below which a column that has not reached solid ground floods with
/// water instead of staying air.
pub const WATER_LEVEL: i32 = 8;

/// Dry land within this many blocks above `WATER_LEVEL` gets a sandy top
/// layer (beach) instead of grass.
pub const SAND_MARGIN: i32 = 2;

/// Surface heights at or above `STONE_HEIGHT` (`BASE_HEIGHT + TERRAIN_HEIGHT
/// * 0.7`, that is 21.2 blocks) get a stone top layer: as whole block counts,
/// 22 and up.
pub const MIN_STONE_SURFACE: i32 = 22;

/// The top block of a column whose surface sits at `surface`: sand near water
/// (and on every lake floor), stone on high peaks, grass otherwise.
pub open spec fn top_block(surface: int) -> BlockId {
    if surface <= WATER_LEVEL + SAND_MARGIN {
        SAND
    } else if surface >= MIN_STONE_SURFACE {
        STONE
    } else {
        GRASS
    }
}

/// What sits at `world_y` in a column whose first non-solid block is at
/// `surface`: stone below the top layer, the top block on it, water up to
/// the water level, air above.
pub open spec fn terrain_block(surface: int, world_y: int) -> BlockId {
    if world_y < surface - 1 {
        STONE
    } else if world_y == surface - 1 {
        top_block(surface)
    } else if world_y < WATER_LEVEL {
        WATER
    } else {
        AIR
    }
}

/// What block sits at `world_y` in a column whose surface sits at
/// `surface_height`. A pure function of those two numbers, so it answers the
/// same however far below the surface chunk it is asked about.
pub fn block_at(surface_height: i32, world_y: i32) -> (b: BlockId)
    ensures
        b == terrain_block(surface_height as int, world_y as int),
        world_y < surface_height - 1 ==> b == STONE,
        world_y == surface_height - 1 ==> b == top_block(surface_height as int),
        surface_height <= world_y < WATER_LEVEL ==> b == WATER,
        world_y >= surface_height && world_y >= WATER_LEVEL ==> b == AIR,
        (b as int) < BLOCK_TYPE_COUNT,
{
    if world_y < surface_height {
        if world_y != surface_height - 1 {
            return STONE;
        }
        if surface_height <= WATER_LEVEL + SAND_MARGIN {
            SAND
        } else if surface_height >= MIN_STONE_SURFACE {
            STONE
        } else {
            GRASS
        }
    } else if world_y < WATER_LEVEL {
        WATER
    } else {
        AIR
    }
}

/// Columns have no overhangs and no caves: once a column is opaque at some
/// height it stays opaque all the way down.
pub proof fn lemma_columns_fill_downward(surface: int, world_y: int, below: int)
    requires
        opaque(terrain_block(surface, world_y)),
        below <= world_y,
    ensures
        opaque(terrain_block(surface, below)),
{
}

/// A column whose surface is above the water level never holds water.
pub proof fn lemma_dry_columns_have_no_water(surface: int, world_y: int)
    requires
        surface >= WATER_LEVEL,
    ensures
        terrain_block(surface, world_y) != WATER,
{
}

/// Water lies on sand: in any column, a block of ground with water right
/// above it is sand, however deep the water, so every lake and sea floor is
/// sandy. A shore column, topped within `SAND_MARGIN` blocks above the
/// water level, is sandy too.
pub proof fn lemma_water_lies_on_sand(surface: int, world_y: int)
    ensures
        terrain_block(surface, world_y) != AIR && terrain_block(surface, world_y) != WATER
            && terrain_block(surface, world_y + 1) == WATER ==> terrain_block(surface, world_y) == SAND,
        WATER_LEVEL <= surface <= WATER_LEVEL + SAND_MARGIN ==> terrain_block(surface, surface - 1)
            == SAND,
{
}

/// Exactly the blocks below a column's surface are ground (neither air nor
/// water): stone, grass or sand below it, water or air from it up.
pub proof fn lemma_solid_exactly_below_surface(surface: int, world_y: int)
    ensures
        (terrain_block(surface, world_y) != AIR && terrain_block(surface, world_y) != WATER) == (
        world_y < surface),
{
}

/// Every terrain block is one of the known block types.
pub proof fn lemma_terrain_blocks_are_known(surface: int, world_y: int)
    ensures
        (terrain_block(surface, world_y) as int) < BLOCK_TYPE_COUNT,
{
}

impl ChunkPos {
    /// Whether every padded column and layer of this chunk has a block
    /// coordinate in range.
    pub open spec fn padded_in_range(self) -> bool {
        &&& i32::MIN <= self.x * 32 - 1
        &&& self.x * 32 + 32 <= i32::MAX
        &&& i32::MIN <= self.y * 32
        &&& self.y * 32 + 32 <= i32::MAX
        &&& i32::MIN <= self.z * 32 - 1
        &&& self.z * 32 + 32 <= i32::MAX
    }
}

/// Position of padded column `(px, pz)` in a chunk's heightmap.
pub open spec fn column_index(px: int, pz: int) -> int {
    px * 34 + pz
}

/// Whether `col` is the world `(x, z)` of padded column `(px, pz)` of chunk
/// `pos`.
pub open spec fn column_world(col: (i32, i32), pos: ChunkPos, px: int, pz: int) -> bool {
    col.0 == pos.x * 32 + px - 1 && col.1 == pos.z * 32 + pz - 1
}

/// The world `(x, z)` of every padded column of chunk `pos`, in heightmap
/// order: entry `px * PADDED_SIZE + pz` is padded column `(px, pz)`, world
/// offset `p - PADDING` from the chunk origin.
pub fn padded_columns(pos: ChunkPos) -> (cols: Vec<(i32, i32)>)
    requires
        pos.padded_in_range(),
    ensures
        cols@.len() == PADDED_SIZE * PADDED_SIZE,
        forall|px: int, pz: int|
            0 <= px < PADDED_SIZE && 0 <= pz < PADDED_SIZE ==> column_world(cols@[column_index(px, pz)], pos, px, pz),
{
    let size = crate::config::CHUNK_SIZE;
    let origin_x = pos.x * size;
    let origin_z = pos.z * size;
    let mut cols: Vec<(i32, i32)> = Vec::new();
    for padded_x in 0..PADDED_SIZE
        invariant
            origin_x == pos.x * 32,
            origin_z == pos.z * 32,
            pos.padded_in_range(),
            cols@.len() == padded_x * 34,
            forall|px: int, pz: int|
                0 <= px < padded_x && 0 <= pz < PADDED_SIZE ==> column_world(cols@[column_index(px, pz)], pos, px, pz),
    {
        for padded_z in 0..PADDED_SIZE
            invariant
                origin_x == pos.x * 32,
                origin_z == pos.z * 32,
                pos.padded_in_range(),
                padded_x < PADDED_SIZE,
                cols@.len() == padded_x * 34 + padded_z,
                forall|px: int, pz: int|
                    (0 <= px < padded_x && 0 <= pz < PADDED_SIZE) || (px == padded_x && 0 <= pz
                        < padded_z) ==> column_world(cols@[column_index(px, pz)], pos, px, pz),
        {
            let world_x = origin_x + padded_x as i32 - PADDING as i32;
            let world_z = origin_z + padded_z as i32 - PADDING as i32;
            cols.push((world_x, world_z));
        }
    }
    cols
}

/// Whether block `(px, y, pz)` of `data` is what the terrain rules put
/// there, given the padded heightmap and the chunk's origin height.
pub open spec fn generated_at(
    data: ChunkData,
    heights: Seq<i32>,
    origin_y: int,
    px: int,
    y: int,
    pz: int,
) -> bool {
    data.padded(px, y, pz) == terrain_block(heights[column_index(px, pz)] as int, origin_y + y)
}

/// Fills one chunk's padded block array from the surface heights of its
/// padded columns (`surface_heights[px * PADDED_SIZE + pz]`, see
/// [`padded_columns`]): one block of horizontal padding and one layer of
/// padding on top, sampled with the same rules, so the mesher can cull faces
/// at every chunk boundary without the neighbouring chunks existing.
pub fn generate_chunk(pos: ChunkPos, surface_heights: &Vec<i32>) -> (data: ChunkData)
    requires
        pos.padded_in_range(),
        surface_heights@.len() == PADDED_SIZE * PADDED_SIZE,
    ensures
        data.wf(),
        data.known_blocks(),
        generated(data, surface_heights@, pos),
{
    let mut data = ChunkData::empty();
    let origin_y = pos.y * crate::config::CHUNK_SIZE;
    let ghost hs = surface_heights@;
    assert(data.known_blocks());

    for padded_x in 0..PADDED_SIZE
        invariant
            data.wf(),
            data.known_blocks(),
            origin_y == pos.y * 32,
            pos.padded_in_range(),
            hs == surface_heights@,
            hs.len() == PADDED_SIZE * PADDED_SIZE,
            forall|px: int, y: int, pz: int|
                in_padded_box(px, y, pz) && px < padded_x ==> generated_at(
                    data,
                    hs,
                    origin_y as int,
                    px,
                    y,
                    pz,
                ),
    {
        for padded_z in 0..PADDED_SIZE
            invariant
                data.wf(),
                data.known_blocks(),
                origin_y == pos.y * 32,
                pos.padded_in_range(),
                padded_x < PADDED_SIZE,
                hs == surface_heights@,
                hs.len() == PADDED_SIZE * PADDED_SIZE,
                forall|px: int, y: int, pz: int|
                    in_padded_box(px, y, pz) && (px < padded_x || (px == padded_x && pz
                        < padded_z)) ==> generated_at(data, hs, origin_y as int, px, y, pz),
        {
            let surface_height = surface_heights[padded_x * PADDED_SIZE + padded_z];
            for y in 0..PADDED_HEIGHT
                invariant
                    data.wf(),
                    data.known_blocks(),
                    origin_y == pos.y * 32,
                    pos.padded_in_range(),
                    padded_x < PADDED_SIZE,
                    padded_z < PADDED_SIZE,
                    hs == surface_heights@,
                    hs.len() == PADDED_SIZE * PADDED_SIZE,
                    surface_height == hs[column_index(padded_x as int, padded_z as int)],
                    forall|px: int, yy: int, pz: int|
                        in_padded_box(px, yy, pz) && (px < padded_x || (px == padded_x && pz
                            < padded_z) || (px == padded_x && pz == padded_z && yy < y))
                            ==> generated_at(data, hs, origin_y as int, px, yy, pz),
            {
                let world_y = origin_y + y as i32;
                let block = block_at(surface_height, world_y);
                let ghost before = data;
                data.set_padded(padded_x, y, padded_z, block);
                proof {
                    let i = padded_index(padded_x as int, y as int, padded_z as int);
                    assert forall|px: int, yy: int, pz: int|
                        in_padded_box(px, yy, pz) && (px < padded_x || (px == padded_x && pz
                            < padded_z) || (px == padded_x && pz == padded_z && yy < y + 1))
                            implies generated_at(data, hs, origin_y as int, px, yy, pz) by {
                        if px == padded_x && pz == padded_z && yy == y {
                        } else {
                            lemma_padded_index_in_box(px, yy, pz);
                            if padded_index(px, yy, pz) == i {
                                lemma_padded_index_injective(
                                    px,
                                    yy,
                                    pz,
                                    padded_x as int,
                                    y as int,
                                    padded_z as int,
                                );
                            }
                            assert(data.padded(px, yy, pz) == before.padded(px, yy, pz));
                        }
                    }
                    assert forall|k: int| 0 <= k < data@.len() implies (#[trigger] data@[k])
                        < BLOCK_TYPE_COUNT by {
                        if k != i {
                            assert(data@[k] == before@[k]);
                        }
                    }
                }
            }
        }
    }
    data
}

/// Whether `data` is chunk `pos` generated from heightmap `heights`.
pub open spec fn generated(data: ChunkData, heights: Seq<i32>, pos: ChunkPos) -> bool {
    forall|px: int, y: int, pz: int|
        in_padded_box(px, y, pz) ==> #[trigger] generated_at(data, heights, pos.y * 32, px, y, pz)
}

/// Whether `heights` holds `surface`, a height for every world column,
/// sampled at each padded column of chunk `pos`.
pub open spec fn sampled(heights: Seq<i32>, pos: ChunkPos, surface: spec_fn(int, int) -> int) -> bool {
    &&& heights.len() == PADDED_SIZE * PADDED_SIZE
    &&& forall|px: int, pz: int|
        0 <= px < PADDED_SIZE && 0 <= pz < PADDED_SIZE ==> #[trigger] heights[column_index(px, pz)]
            == surface(pos.x * 32 + px - 1, pos.z * 32 + pz - 1)
}

/// Padding sees what the neighbour has: when two adjacent chunks are
/// generated from one world heightmap, the padding of one holds exactly the
/// neighbour's own blocks on their shared border — the first block across
/// the X or Z edge, and the first layer of the chunk above.
pub proof fn lemma_padding_matches_neighbours(
    a: ChunkPos,
    da: ChunkData,
    ha: Seq<i32>,
    b: ChunkPos,
    db: ChunkData,
    hb: Seq<i32>,
    surface: spec_fn(int, int) -> int,
)
    requires
        generated(da, ha, a),
        generated(db, hb, b),
        sampled(ha, a, surface),
        sampled(hb, b, surface),
    ensures
        (b.x == a.x + 1 && b.y == a.y && b.z == a.z) ==> forall|y: int, pz: int|
            0 <= y < PADDED_HEIGHT && 0 <= pz < PADDED_SIZE ==> da.padded(33, y, pz) == db.padded(
                1,
                y,
                pz,
            ) && da.padded(32, y, pz) == db.padded(0, y, pz),
        (b.x == a.x && b.y == a.y && b.z == a.z + 1) ==> forall|px: int, y: int|
            0 <= px < PADDED_SIZE && 0 <= y < PADDED_HEIGHT ==> da.padded(px, y, 33) == db.padded(
                px,
                y,
                1,
            ) && da.padded(px, y, 32) == db.padded(px, y, 0),
        (b.x == a.x && b.y == a.y + 1 && b.z == a.z) ==> forall|px: int, pz: int|
            0 <= px < PADDED_SIZE && 0 <= pz < PADDED_SIZE ==> da.padded(px, 32, pz) == db.padded(
                px,
                0,
                pz,
            ),
{
    if (b.x == a.x + 1 && b.y == a.y && b.z == a.z) {
        assert forall|y: int, pz: int|
            0 <= y < PADDED_HEIGHT && 0 <= pz < PADDED_SIZE implies da.padded(33, y, pz)
            == db.padded(1, y, pz) && da.padded(32, y, pz) == db.padded(0, y, pz) by {
            assert(generated_at(da, ha, a.y * 32, 33, y, pz));
            assert(generated_at(db, hb, b.y * 32, 1, y, pz));
            assert(generated_at(da, ha, a.y * 32, 32, y, pz));
            assert(generated_at(db, hb, b.y * 32, 0, y, pz));
            assert(ha[column_index(33, pz)] == surface(a.x * 32 + 33 - 1, a.z * 32 + pz - 1));
            assert(hb[column_index(1, pz)] == surface(b.x * 32 + 1 - 1, b.z * 32 + pz - 1));
            assert(ha[column_index(32, pz)] == surface(a.x * 32 + 32 - 1, a.z * 32 + pz - 1));
            assert(hb[column_index(0, pz)] == surface(b.x * 32 + 0 - 1, b.z * 32 + pz - 1));
        }
    }
    if (b.x == a.x && b.y == a.y && b.z == a.z + 1) {
        assert forall|px: int, y: int|
            0 <= px < PADDED_SIZE && 0 <= y < PADDED_HEIGHT implies da.padded(px, y, 33)
            == db.padded(px, y, 1) && da.padded(px, y, 32) == db.padded(px, y, 0) by {
            assert(generated_at(da, ha, a.y * 32, px, y, 33));
            assert(generated_at(db, hb, b.y * 32, px, y, 1));
            assert(generated_at(da, ha, a.y * 32, px, y, 32));
            assert(generated_at(db, hb, b.y * 32, px, y, 0));
            assert(ha[column_index(px, 33)] == surface(a.x * 32 + px - 1, a.z * 32 + 33 - 1));
            assert(hb[column_index(px, 1)] == surface(b.x * 32 + px - 1, b.z * 32 + 1 - 1));
            assert(ha[column_index(px, 32)] == surface(a.x * 32 + px - 1, a.z * 32 + 32 - 1));
            assert(hb[column_index(px, 0)] == surface(b.x * 32 + px - 1, b.z * 32 + 0 - 1));
        }
    }
    if (b.x == a.x && b.y == a.y + 1 && b.z == a.z) {
        assert forall|px: int, pz: int|
            0 <= px < PADDED_SIZE && 0 <= pz < PADDED_SIZE implies da.padded(px, 32, pz)
            == db.padded(px, 0, pz) by {
            assert(generated_at(da, ha, a.y * 32, px, 32, pz));
            assert(generated_at(db, hb, b.y * 32, px, 0, pz));
            assert(ha[column_index(px, pz)] == surface(a.x * 32 + px - 1, a.z * 32 + pz - 1));
            assert(hb[column_index(px, pz)] == surface(b.x * 32 + px - 1, b.z * 32 + pz - 1));
        }
    }
}

} // verus!
