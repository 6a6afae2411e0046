//! Block ids, chunk coordinates, and the padded block array of one chunk.

use vstd::prelude::*;

verus! {

/// Edge length of a chunk in blocks, as an index type.
pub const CHUNK_SIZE: usize = 32;

/// Horizontal (X/Z) blocks of padding sampled from the neighbouring chunks'
/// world positions, so face culling at a chunk's edge sees the same terrain
/// the neighbouring chunk will.
pub const PADDING: usize = 1;

/// `CHUNK_SIZE + 2 * PADDING`: the padded horizontal extent.
pub const PADDED_SIZE: usize = 34;

/// `CHUNK_SIZE + 1`: the chunk's own layers plus one sampled layer on top,
/// the first layer of whatever chunk sits above this one.
pub const PADDED_HEIGHT: usize = 33;

/// Number of blocks a [`ChunkData`] stores:
/// `PADDED_SIZE * PADDED_HEIGHT * PADDED_SIZE`.
pub const PADDED_VOLUME: usize = 38148;

/// A block type.
pub type BlockId = u8;

pub const AIR: BlockId = 0;
pub const STONE: BlockId = 1;
pub const GRASS: BlockId = 2;
pub const SAND: BlockId = 3;
pub const WATER: BlockId = 4;

/// Total distinct `BlockId` values, including `AIR`.
pub const BLOCK_TYPE_COUNT: usize = 5;

/// The padded constants are the sums their names describe.
pub proof fn padded_dimensions()
    ensures
        PADDED_SIZE == CHUNK_SIZE + 2 * PADDING,
        PADDED_HEIGHT == CHUNK_SIZE + 1,
        PADDED_VOLUME == PADDED_SIZE * PADDED_HEIGHT * PADDED_SIZE,
        CHUNK_SIZE == crate::config::CHUNK_SIZE,
{
}

/// Whether a block hides the faces of its neighbours: every block but air
/// (water included).
pub open spec fn opaque(block: BlockId) -> bool {
    block != AIR
}

/// Whether a block is opaque for face-culling purposes: any non-air block
/// counts, including `WATER`. This is not the question "can the player walk
/// through it" (see `ChunkManager::is_solid`).
pub fn is_opaque(block: BlockId) -> (r: bool)
    ensures
        r == opaque(block),
{
    block != AIR
}

/// A world-grid block coordinate.
#[derive(Clone, Copy, Debug, PartialEq, Eq, Structural, Hash)]
pub struct BlockPos {
    pub x: i32,
    pub y: i32,
    pub z: i32,
}

/// A chunk coordinate (in chunks, not blocks): `x`/`z` horizontal, `y` a
/// vertical chunk layer.
#[derive(Clone, Copy, Debug, PartialEq, Eq, Structural, Hash)]
pub struct ChunkPos {
    pub x: i32,
    pub y: i32,
    pub z: i32,
}

impl ChunkPos {
    pub fn new(x: i32, y: i32, z: i32) -> (p: Self)
        ensures
            p == (ChunkPos { x, y, z }),
    {
        ChunkPos { x, y, z }
    }

    /// Whether the chunk's min corner, in blocks, fits the block coordinate
    /// range.
    pub open spec fn origin_in_range(self) -> bool {
        &&& i32::MIN <= self.x * 32 <= i32::MAX
        &&& i32::MIN <= self.y * 32 <= i32::MAX
        &&& i32::MIN <= self.z * 32 <= i32::MAX
    }

    /// World-grid origin (min corner) of this chunk, in blocks.
    pub fn world_origin(self) -> (o: BlockPos)
        requires
            self.origin_in_range(),
        ensures
            o.x == self.x * 32,
            o.y == self.y * 32,
            o.z == self.z * 32,
    {
        let size = crate::config::CHUNK_SIZE;
        BlockPos { x: self.x * size, y: self.y * size, z: self.z * size }
    }
}

/// Position of padded coordinate `(px, y, pz)` in the flat block array.
pub open spec fn padded_index(px: int, y: int, pz: int) -> int {
    px + y * 34 + pz * 1122
}

/// Whether `(px, y, pz)` lies inside the padded box.
pub open spec fn in_padded_box(px: int, y: int, pz: int) -> bool {
    0 <= px < PADDED_SIZE && 0 <= y < PADDED_HEIGHT && 0 <= pz < PADDED_SIZE
}

/// Every padded coordinate inside the box has its slot inside the array.
pub proof fn lemma_padded_index_in_box(px: int, y: int, pz: int)
    requires
        in_padded_box(px, y, pz),
    ensures
        0 <= padded_index(px, y, pz) < PADDED_VOLUME,
{
}

/// Distinct padded coordinates inside the box occupy distinct array slots.
pub proof fn lemma_padded_index_injective(px: int, y: int, pz: int, qx: int, qy: int, qz: int)
    requires
        in_padded_box(px, y, pz),
        in_padded_box(qx, qy, qz),
        padded_index(px, y, pz) == padded_index(qx, qy, qz),
    ensures
        px == qx && y == qy && pz == qz,
{
}

/// Raw block data for one chunk, padded by one block on every horizontal
/// side and one block on top only.
///
/// Padded coordinates `px`/`pz` run over `0..PADDED_SIZE` (world offset
/// `p - PADDING` from the chunk origin), `y` over `0..PADDED_HEIGHT`. Local
/// coordinates run over `0..CHUNK_SIZE` on every axis.
pub struct ChunkData {
    blocks: Vec<BlockId>,
}

impl View for ChunkData {
    type V = Seq<BlockId>;

    closed spec fn view(&self) -> Seq<BlockId> {
        self.blocks@
    }
}

impl ChunkData {
    /// The array holds exactly `PADDED_VOLUME` blocks.
    pub open spec fn wf(self) -> bool {
        self@.len() == PADDED_VOLUME
    }

    /// The block at padded coordinate `(px, y, pz)`.
    pub open spec fn padded(self, px: int, y: int, pz: int) -> BlockId {
        self@[padded_index(px, y, pz)]
    }

    /// The block at local coordinate `(x, y, z)`.
    pub open spec fn local(self, x: int, y: int, z: int) -> BlockId {
        self.padded(x + 1, y, z + 1)
    }

    /// Every stored block is one of the `BLOCK_TYPE_COUNT` known types.
    pub open spec fn known_blocks(self) -> bool {
        forall|i: int| 0 <= i < self@.len() ==> (#[trigger] self@[i]) < BLOCK_TYPE_COUNT
    }

    /// A chunk of nothing but air.
    pub fn empty() -> (d: Self)
        ensures
            d.wf(),
            forall|i: int| 0 <= i < PADDED_VOLUME ==> d@[i] == AIR,
    {
        ChunkData { blocks: vec![AIR; PADDED_VOLUME] }
    }

    fn index(padded_x: usize, y: usize, padded_z: usize) -> (i: usize)
        requires
            padded_index(padded_x as int, y as int, padded_z as int) < PADDED_VOLUME,
        ensures
            i == padded_index(padded_x as int, y as int, padded_z as int),
    {
        padded_x + y * PADDED_SIZE + padded_z * PADDED_SIZE * PADDED_HEIGHT
    }

    /// Writes the block at padded coordinate `(padded_x, y, padded_z)`.
    pub fn set_padded(&mut self, padded_x: usize, y: usize, padded_z: usize, block: BlockId)
        requires
            old(self).wf(),
            padded_index(padded_x as int, y as int, padded_z as int) < PADDED_VOLUME,
        ensures
            final(self).wf(),
            final(self)@ == old(self)@.update(
                padded_index(padded_x as int, y as int, padded_z as int),
                block,
            ),
    {
        let i = Self::index(padded_x, y, padded_z);
        self.blocks.set(i, block);
    }

    /// Reads the block at padded coordinate `(padded_x, y, padded_z)`.
    pub fn get_padded(&self, padded_x: usize, y: usize, padded_z: usize) -> (b: BlockId)
        requires
            self.wf(),
            padded_index(padded_x as int, y as int, padded_z as int) < PADDED_VOLUME,
        ensures
            b == self.padded(padded_x as int, y as int, padded_z as int),
    {
        self.blocks[Self::index(padded_x, y, padded_z)]
    }

    /// Reads a real (non-padding) block using local chunk coordinates.
    pub fn get(&self, x: usize, y: usize, z: usize) -> (b: BlockId)
        requires
            self.wf(),
            padded_index(x + 1, y as int, z + 1) < PADDED_VOLUME,
        ensures
            b == self.local(x as int, y as int, z as int),
    {
        self.get_padded(x + PADDING, y, z + PADDING)
    }
}

/// A read gives back what the last write to the same padded coordinate
/// wrote, and every other coordinate keeps its block.
pub proof fn lemma_read_after_write(
    before: ChunkData,
    after: ChunkData,
    px: int,
    y: int,
    pz: int,
    block: BlockId,
    qx: int,
    qy: int,
    qz: int,
)
    requires
        before.wf(),
        in_padded_box(px, y, pz),
        in_padded_box(qx, qy, qz),
        after@ == before@.update(padded_index(px, y, pz), block),
    ensures
        after.padded(qx, qy, qz) == if qx == px && qy == y && qz == pz {
            block
        } else {
            before.padded(qx, qy, qz)
        },
{
    if padded_index(qx, qy, qz) == padded_index(px, y, pz) {
        lemma_padded_index_injective(qx, qy, qz, px, y, pz);
    }
}

} // verus!
