//! Chunk streaming: which chunks are loaded around the player, which are
//! waiting to be generated, and the block data collision reads.

use vstd::prelude::*;
use super::chunk::{in_padded_box, BlockPos, ChunkData, ChunkPos, AIR, WATER};
use super::generator::{generated, generated_at, column_index, lemma_solid_exactly_below_surface};

verus! {

/// The engine's fixed hasher, carried as the default hasher of its map.
#[verifier::external_type_specification]
#[verifier::external_body]
pub struct ExFixedHasher(bevy::platform::hash::FixedHasher);

/// The engine's hash map (`bevy::platform::collections::HashMap`).
#[verifier::external_type_specification]
#[verifier::external_body]
#[verifier::reject_recursive_types(K)]
#[verifier::reject_recursive_types(V)]
#[verifier::reject_recursive_types(S)]
pub struct ExBevyHashMap<K, V, S>(bevy::platform::collections::HashMap<K, V, S>);

/// The engine's hash map of loaded chunks, by packed position key.
pub type LoadedMap = bevy::platform::collections::HashMap<u128, LoadedChunk>;

/// What a loaded-chunk map holds: its entries, by key.
pub uninterp spec fn loaded_contents(m: LoadedMap) -> Map<u128, LoadedChunk>;

/// `HashMap::new` (with the fixed hasher): a map with no entries.
#[verifier::external_body]
fn loaded_new() -> (m: LoadedMap)
    ensures
        loaded_contents(m).dom() == Set::<u128>::empty(),
{
    bevy::platform::collections::HashMap::new()
}

/// `HashMap::contains_key`: whether `k` has an entry.
#[verifier::external_body]
fn loaded_contains(m: &LoadedMap, k: u128) -> (r: bool)
    ensures
        r == loaded_contents(*m).contains_key(k),
{
    m.contains_key(&k)
}

/// `HashMap::get`: the entry of `k`, if it has one.
#[verifier::external_body]
fn loaded_get(m: &LoadedMap, k: u128) -> (r: Option<&LoadedChunk>)
    ensures
        r == if loaded_contents(*m).contains_key(k) {
            Some(&loaded_contents(*m)[k])
        } else {
            None
        },
{
    m.get(&k)
}

/// `HashMap::insert`: `k` now maps to `v`, replacing any earlier entry
/// (which is dropped); every other entry stays.
#[verifier::external_body]
fn loaded_insert(m: &mut LoadedMap, k: u128, v: LoadedChunk)
    ensures
        loaded_contents(*final(m)) == loaded_contents(*old(m)).insert(k, v),
{
    m.insert(k, v);
}

/// `HashMap::remove`: takes out the entry of `k`, if it has one, and
/// returns it; every other entry stays.
#[verifier::external_body]
fn loaded_remove(m: &mut LoadedMap, k: u128) -> (r: Option<LoadedChunk>)
    ensures
        loaded_contents(*final(m)) == loaded_contents(*old(m)).remove(k),
        r == if loaded_contents(*old(m)).contains_key(k) {
            Some(loaded_contents(*old(m))[k])
        } else {
            None
        },
{
    m.remove(&k)
}

/// `HashMap::keys`, copied out: every key of the map exactly once, in the
/// map's own order, which is left unsaid.
#[verifier::external_body]
fn loaded_keys(m: &LoadedMap) -> (keys: Vec<u128>)
    ensures
        keys@.no_duplicates(),
        forall|k: u128| keys@.contains(k) <==> loaded_contents(*m).contains_key(k),
{
    m.keys().copied().collect()
}

/// The engine's hash set (`bevy::platform::collections::HashSet`).
#[verifier::external_type_specification]
#[verifier::external_body]
#[verifier::reject_recursive_types(T)]
#[verifier::reject_recursive_types(S)]
pub struct ExBevyHashSet<T, S>(bevy::platform::collections::HashSet<T, S>);

/// The engine's hash set of chunk positions.
pub type ChunkSet = bevy::platform::collections::HashSet<ChunkPos>;

/// What a chunk-position set holds. (`ChunkPos`'s derived `==` and hash
/// compare the three coordinates, so the set's elements are positions as
/// values.)
pub uninterp spec fn chunk_set_contents(s: ChunkSet) -> Set<ChunkPos>;

/// `HashSet::new` (with the fixed hasher): a set with no elements.
#[verifier::external_body]
fn chunk_set_new() -> (s: ChunkSet)
    ensures
        chunk_set_contents(s) == Set::<ChunkPos>::empty(),
{
    bevy::platform::collections::HashSet::new()
}

/// `HashSet::insert`: `p` is now an element (once, if it already was one);
/// every other element stays.
#[verifier::external_body]
fn chunk_set_insert(s: &mut ChunkSet, p: ChunkPos)
    ensures
        chunk_set_contents(*final(s)) == chunk_set_contents(*old(s)).insert(p),
{
    s.insert(p);
}

/// `HashSet::contains`: whether `p` is an element.
#[verifier::external_body]
fn chunk_set_contains(s: &ChunkSet, p: ChunkPos) -> (r: bool)
    ensures
        r == chunk_set_contents(*s).contains(p),
{
    s.contains(&p)
}

/// `HashSet::iter`, copied out: every element exactly once, in the set's
/// own order, which is left unsaid.
#[verifier::external_body]
fn chunk_set_elems(s: &ChunkSet) -> (elems: Vec<ChunkPos>)
    ensures
        elems@.no_duplicates(),
        forall|p: ChunkPos| elems@.contains(p) <==> chunk_set_contents(*s).contains(p),
{
    s.iter().copied().collect()
}

/// How many chunks get generated and meshed per frame, so a large load-in
/// is spread over several frames instead of one long hitch.
pub const CHUNKS_PER_FRAME: usize = 4;

/// When true, the manager never streams chunks around the player: it loads
/// exactly the fixed 2x2 grid of [`fixed_debug_chunks`] once.
pub const DEBUG_FIXED_CHUNK_GRID: bool = false;

/// The debug grid: the four chunks around the origin at height 0.
pub fn fixed_debug_chunks() -> (r: [ChunkPos; 4])
    ensures
        r@ == seq![
            ChunkPos { x: 0, y: 0, z: 0 },
            ChunkPos { x: 1, y: 0, z: 0 },
            ChunkPos { x: 0, y: 0, z: 1 },
            ChunkPos { x: 1, y: 0, z: 1 },
        ],
{
    let r = [
        ChunkPos::new(0, 0, 0),
        ChunkPos::new(1, 0, 0),
        ChunkPos::new(0, 0, 1),
        ChunkPos::new(1, 0, 1),
    ];
    assert(r@ =~= seq![
        ChunkPos { x: 0, y: 0, z: 0 },
        ChunkPos { x: 1, y: 0, z: 0 },
        ChunkPos { x: 0, y: 0, z: 1 },
        ChunkPos { x: 1, y: 0, z: 1 },
    ]);
    r
}

/// The hash-map key of a chunk position: the three coordinates, each offset
/// into `0..2^32`, packed into one integer.
pub open spec fn chunk_key(p: ChunkPos) -> int {
    (p.x + 0x8000_0000) * 0x1_0000_0000_0000_0000 + (p.y + 0x8000_0000) * 0x1_0000_0000 + (p.z
        + 0x8000_0000)
}

/// Distinct positions have distinct keys, and every key fits a `u128`.
pub proof fn lemma_chunk_key(p: ChunkPos, q: ChunkPos)
    ensures
        0 <= chunk_key(p) < 0x1_0000_0000_0000_0000_0000_0000,
        chunk_key(p) == chunk_key(q) ==> p == q,
{
}

fn key_of(pos: ChunkPos) -> (k: u128)
    ensures
        k == chunk_key(pos),
{
    proof {
        lemma_chunk_key(pos, pos);
    }
    let x = (pos.x as i64 + 0x8000_0000) as u128;
    let y = (pos.y as i64 + 0x8000_0000) as u128;
    let z = (pos.z as i64 + 0x8000_0000) as u128;
    x * 0x1_0000_0000_0000_0000 + y * 0x1_0000_0000 + z
}

/// A loaded chunk: its position, the id of its spawned render entity (none
/// when its mesh came out empty, e.g. fully buried), and its block data,
/// kept for collision whether or not it renders.
pub struct LoadedChunk {
    pub pos: ChunkPos,
    pub entity: Option<u64>,
    pub data: ChunkData,
}

/// The streaming state: loaded chunks by position, chunks waiting to be
/// generated (front first), and the chunk the player was last confirmed in.
pub struct ChunkManager {
    loaded: LoadedMap,
    pending: Vec<ChunkPos>,
    last_player_chunk: Option<ChunkPos>,
}

/// Whether a block stops player movement: anything but air and water.
pub open spec fn solid(block: u8) -> bool {
    block != AIR && block != WATER
}

/// The chunk containing world block `b` (floor division by the chunk size).
pub open spec fn chunk_of(b: BlockPos) -> ChunkPos {
    ChunkPos { x: (b.x as int / 32) as i32, y: (b.y as int / 32) as i32, z: (b.z as int / 32) as i32 }
}

/// What collision reads at world block `b` of manager `m`: whether its
/// chunk is loaded and holds a solid block there.
pub open spec fn solid_at(m: ChunkManager, b: BlockPos) -> bool {
    m.has(chunk_of(b)) && solid(
        m.chunk(chunk_of(b)).data.local(b.x as int % 32, b.y as int % 32, b.z as int % 32),
    )
}

/// The chunks the player wants loaded while in chunk `current`: a square of
/// `2 * RENDER_DISTANCE + 1` chunk columns around it, for every layer from
/// `RENDER_DISTANCE` layers below up to the player's own.
pub open spec fn desired(current: ChunkPos, p: ChunkPos) -> bool {
    &&& current.x - 4 <= p.x <= current.x + 4
    &&& current.z - 4 <= p.z <= current.z + 4
    &&& current.y - 4 <= p.y <= current.y
}

/// Whether chunk `p` is in the window wanted around `current`.
pub fn is_desired(current: ChunkPos, p: ChunkPos) -> (r: bool)
    ensures
        r == desired(current, p),
{
    let d = crate::config::RENDER_DISTANCE as i64;
    let (cx, cy, cz) = (current.x as i64, current.y as i64, current.z as i64);
    let (px, py, pz) = (p.x as i64, p.y as i64, p.z as i64);
    cx - d <= px && px <= cx + d && cz - d <= pz && pz <= cz + d && cy - d <= py && py <= cy
}

impl ChunkPos {
    /// Whether the whole desired window around this chunk has coordinates
    /// in range.
    pub open spec fn window_in_range(self) -> bool {
        &&& i32::MIN <= self.x - 4 && self.x + 4 <= i32::MAX
        &&& i32::MIN <= self.y - 4
        &&& i32::MIN <= self.z - 4 && self.z + 4 <= i32::MAX
    }
}

impl ChunkManager {
    /// Whether chunk `p` is loaded.
    pub closed spec fn has(&self, p: ChunkPos) -> bool {
        loaded_contents(self.loaded).contains_key(chunk_key(p) as u128)
    }

    /// The loaded chunk at `p` (meaningful when `has(p)`).
    pub closed spec fn chunk(&self, p: ChunkPos) -> LoadedChunk {
        loaded_contents(self.loaded)[chunk_key(p) as u128]
    }

    /// Chunks waiting to be generated, front first.
    pub closed spec fn pending_chunks(&self) -> Seq<ChunkPos> {
        self.pending@
    }

    /// The chunk the player was last confirmed in.
    pub closed spec fn last_chunk(&self) -> Option<ChunkPos> {
        self.last_player_chunk
    }

    /// Each loaded chunk sits under its own position's key with well-formed,
    /// known block data; nothing is pending twice; nothing pending is
    /// loaded.
    pub closed spec fn wf(&self) -> bool {
        &&& forall|k: u128| #[trigger]
            loaded_contents(self.loaded).contains_key(k) ==> {
                &&& chunk_key(loaded_contents(self.loaded)[k].pos) == k
                &&& loaded_contents(self.loaded)[k].data.wf()
                &&& loaded_contents(self.loaded)[k].data.known_blocks()
            }
        &&& self.pending@.no_duplicates()
        &&& forall|i: int| 0 <= i < self.pending@.len() ==> !self.has(#[trigger] self.pending@[i])
    }

    /// A loaded chunk records its own position and holds well-formed data of
    /// known block types.
    pub proof fn lemma_loaded_chunk(&self, p: ChunkPos)
        requires
            self.wf(),
            self.has(p),
        ensures
            self.chunk(p).pos == p,
            self.chunk(p).data.wf(),
            self.chunk(p).data.known_blocks(),
    {
        lemma_chunk_key(p, self.chunk(p).pos);
        lemma_chunk_key(self.chunk(p).pos, p);
    }

    /// The queue of a well-formed manager holds each chunk at most once, and
    /// no chunk that is already loaded.
    pub proof fn lemma_queue(&self)
        requires
            self.wf(),
        ensures
            self.pending_chunks().no_duplicates(),
            forall|i: int|
                0 <= i < self.pending_chunks().len() ==> !self.has(#[trigger] self.pending_chunks()[i]),
    {
    }

    /// Nothing loaded, nothing pending, no player chunk yet.
    pub fn new() -> (m: Self)
        ensures
            m.wf(),
            forall|p: ChunkPos| !m.has(p),
            m.pending_chunks() == Seq::<ChunkPos>::empty(),
            m.last_chunk() is None,
    {
        ChunkManager { loaded: loaded_new(), pending: Vec::new(), last_player_chunk: None }
    }

    /// The chunk the player was last confirmed in.
    pub fn last_player_chunk(&self) -> (r: Option<ChunkPos>)
        ensures
            r == self.last_chunk(),
    {
        self.last_player_chunk
    }

    /// Whether chunk `pos` is loaded.
    pub fn is_loaded(&self, pos: ChunkPos) -> (r: bool)
        ensures
            r == self.has(pos),
    {
        proof {
            lemma_chunk_key(pos, pos);
        }
        loaded_contains(&self.loaded, key_of(pos))
    }

    /// Whether chunk `pos` is waiting to be generated.
    pub fn is_pending(&self, pos: ChunkPos) -> (r: bool)
        ensures
            r == self.pending_chunks().contains(pos),
    {
        let mut i: usize = 0;
        while i < self.pending.len()
            invariant
                0 <= i <= self.pending@.len(),
                forall|j: int| 0 <= j < i ==> self.pending@[j] != pos,
            decreases self.pending@.len() - i,
        {
            if self.pending[i] == pos {
                return true;
            }
            i += 1;
        }
        false
    }

    /// Whether the block at this world-grid coordinate blocks player
    /// movement: `false` for air, for water (opaque-looking but not
    /// physically solid), and for any block whose chunk is not loaded, so a
    /// player at the edge of the loaded area is not stopped by a chunk that
    /// does not exist yet.
    pub fn is_solid(&self, block: BlockPos) -> (r: bool)
        requires
            self.wf(),
        ensures
            r == solid_at(*self, block),
    {
        let size = crate::config::CHUNK_SIZE;
        let chunk_pos = ChunkPos::new(
            block.x.checked_div_euclid(size).unwrap(),
            block.y.checked_div_euclid(size).unwrap(),
            block.z.checked_div_euclid(size).unwrap(),
        );
        assert(chunk_pos == chunk_of(block));
        proof {
            lemma_chunk_key(chunk_pos, chunk_pos);
        }
        match loaded_get(&self.loaded, key_of(chunk_pos)) {
            None => false,
            Some(chunk) => {
                proof {
                    self.lemma_loaded_chunk(chunk_pos);
                }
                let local_x = block.x.checked_rem_euclid(size).unwrap() as usize;
                let local_y = block.y.checked_rem_euclid(size).unwrap() as usize;
                let local_z = block.z.checked_rem_euclid(size).unwrap() as usize;
                let id = chunk.data.get(local_x, local_y, local_z);
                id != AIR && id != WATER
            },
        }
    }

    /// The nearest solid block of the box from `lo` to `hi` along `axis`
    /// (0: x, 1: y, 2: z): the lowest coordinate of a solid block when
    /// moving in the positive direction, the highest when moving in the
    /// negative one, or `None` when no block of the box is solid. This is
    /// what a box swept along one axis collides with.
    pub fn nearest_solid(&self, lo: BlockPos, hi: BlockPos, axis: u8, positive: bool) -> (r: Option<i32>)
        requires
            self.wf(),
            axis < 3,
        ensures
            r is None <==> forall|b: BlockPos| in_box(b, lo, hi) ==> !#[trigger] solid_at(*self, b),
            r matches Some(c) ==> exists|b: BlockPos|
                in_box(b, lo, hi) && #[trigger] solid_at(*self, b) && coord(b, axis) == c,
            r matches Some(c) ==> forall|b: BlockPos|
                in_box(b, lo, hi) && #[trigger] solid_at(*self, b) ==> if positive {
                    c <= coord(b, axis)
                } else {
                    coord(b, axis) <= c
                },
    {
        let mut best: Option<i32> = None;
        let (lx, ly, lz) = (lo.x as i64, lo.y as i64, lo.z as i64);
        let (hx, hy, hz) = (hi.x as i64, hi.y as i64, hi.z as i64);
        let mut x: i64 = lx;
        while x <= hx
            invariant
                self.wf(),
                axis < 3,
                lx == lo.x && ly == lo.y && lz == lo.z && hx == hi.x && hy == hi.y && hz == hi.z,
                lx <= x <= hx + 1 || x == lx,
                nearest_so_far(*self, lo, hi, axis, positive, best, x as int, ly as int, lz as int),
            decreases hx + 1 - x,
        {
            let mut y: i64 = ly;
            while y <= hy
                invariant
                    self.wf(),
                    axis < 3,
                    lx == lo.x && ly == lo.y && lz == lo.z && hx == hi.x && hy == hi.y && hz == hi.z,
                    lx <= x <= hx,
                    ly <= y <= hy + 1 || y == ly,
                    nearest_so_far(*self, lo, hi, axis, positive, best, x as int, y as int, lz as int),
                decreases hy + 1 - y,
            {
                let mut z: i64 = lz;
                while z <= hz
                    invariant
                        self.wf(),
                        axis < 3,
                        lx == lo.x && ly == lo.y && lz == lo.z && hx == hi.x && hy == hi.y && hz == hi.z,
                        lx <= x <= hx,
                        ly <= y <= hy,
                        lz <= z <= hz + 1 || z == lz,
                        nearest_so_far(*self, lo, hi, axis, positive, best, x as int, y as int, z as int),
                    decreases hz + 1 - z,
                {
                    let b = BlockPos { x: x as i32, y: y as i32, z: z as i32 };
                    let ghost best0 = best;
                    if self.is_solid(b) {
                        let c = if axis == 0 {
                            b.x
                        } else if axis == 1 {
                            b.y
                        } else {
                            b.z
                        };
                        best = match best {
                            None => Some(c),
                            Some(d) => if positive {
                                if c < d {
                                    Some(c)
                                } else {
                                    Some(d)
                                }
                            } else {
                                if c > d {
                                    Some(c)
                                } else {
                                    Some(d)
                                }
                            },
                        };
                    }
                    proof {
                        assert(in_box(b, lo, hi));
                        assert forall|bb: BlockPos|
                            scanned_before(bb, x as int, y as int, z + 1) == (scanned_before(
                                bb,
                                x as int,
                                y as int,
                                z as int,
                            ) || bb == b) by {}
                        if best is Some {
                            let c = best->0;
                            if solid_at(*self, b) && coord(b, axis) == c {
                                assert(in_box(b, lo, hi) && scanned_before(b, x as int, y as int, z + 1)
                                    && solid_at(*self, b) && coord(b, axis) == c);
                            } else {
                                let w = choose|w: BlockPos|
                                    in_box(w, lo, hi) && scanned_before(w, x as int, y as int, z as int)
                                        && #[trigger] solid_at(*self, w) && coord(w, axis) == c;
                                assert(in_box(w, lo, hi) && scanned_before(w, x as int, y as int, z + 1)
                                    && solid_at(*self, w) && coord(w, axis) == c);
                            }
                        }
                        assert(nearest_so_far(*self, lo, hi, axis, positive, best, x as int, y as int, z + 1));
                    }
                    z += 1;
                }
                proof {
                    lemma_nearest_same_scan(
                        *self, lo, hi, axis, positive, best,
                        x as int, y as int, z as int,
                        x as int, y + 1, lz as int,
                    );
                }
                y += 1;
            }
            proof {
                lemma_nearest_same_scan(
                    *self, lo, hi, axis, positive, best,
                    x as int, y as int, lz as int,
                    x + 1, ly as int, lz as int,
                );
            }
            x += 1;
        }
        proof {
            lemma_nearest_same_scan(
                *self, lo, hi, axis, positive, best,
                x as int, ly as int, lz as int,
                hx + 1, ly as int, lz as int,
            );
        }
        best
    }

    /// Removes up to `CHUNKS_PER_FRAME` chunks from the front of the pending
    /// queue and returns them, in queue order, for generation.
    pub fn take_pending_batch(&mut self) -> (batch: Vec<ChunkPos>)
        requires
            old(self).wf(),
        ensures
            final(self).wf(),
            taken(*old(self), *final(self), batch@),
            final(self).pending_chunks().no_duplicates(),
            forall|i: int|
                0 <= i < batch@.len() ==> !final(self).pending_chunks().contains(#[trigger] batch@[i])
                    && !final(self).has(batch@[i]),
    {
        let ghost p0 = self.pending@;
        let budget = CHUNKS_PER_FRAME.min(self.pending.len());
        let mut batch: Vec<ChunkPos> = Vec::new();
        for _i in 0..budget
            invariant
                budget <= p0.len(),
                budget <= CHUNKS_PER_FRAME,
                batch@.len() == _i,
                batch@ == p0.take(_i as int),
                self.pending@ == p0.skip(_i as int),
                p0.no_duplicates(),
                loaded_contents(self.loaded) == loaded_contents(old(self).loaded),
                self.last_player_chunk == old(self).last_player_chunk,
                forall|i: int| 0 <= i < p0.len() ==> !old(self).has(#[trigger] p0[i]),
        {
            let pos = self.pending.remove(0);
            batch.push(pos);
            proof {
                assert(batch@ =~= p0.take(_i + 1));
                assert(self.pending@ =~= p0.skip(_i + 1));
            }
        }
        proof {
            assert forall|i: int, j: int|
                0 <= i < self.pending@.len() && 0 <= j < self.pending@.len() && i != j implies
                self.pending@[i] != self.pending@[j] by {
                assert(self.pending@[i] == p0[i + budget]);
                assert(self.pending@[j] == p0[j + budget]);
            }
            assert forall|i: int| 0 <= i < self.pending@.len() implies !self.has(
                #[trigger] self.pending@[i],
            ) by {
                assert(self.pending@[i] == p0[i + budget]);
            }
            assert forall|i: int| 0 <= i < batch@.len() implies !self.pending@.contains(
                #[trigger] batch@[i],
            ) && !self.has(batch@[i]) by {
                assert(batch@[i] == p0[i]);
                if self.pending@.contains(batch@[i]) {
                    let j = choose|j: int| 0 <= j < self.pending@.len() && self.pending@[j] == batch@[i];
                    assert(self.pending@[j] == p0[j + budget]);
                }
            }
        }
        batch
    }

    /// Records a generated chunk as loaded (replacing any chunk stored under
    /// the same position).
    pub fn insert_loaded(&mut self, pos: ChunkPos, entity: Option<u64>, data: ChunkData)
        requires
            old(self).wf(),
            data.wf(),
            data.known_blocks(),
            !old(self).pending_chunks().contains(pos),
        ensures
            final(self).wf(),
            inserted(*old(self), *final(self), pos, entity, data),
    {
        let key = key_of(pos);
        proof {
            lemma_chunk_key(pos, pos);
        }
        loaded_insert(&mut self.loaded, key, LoadedChunk { pos, entity, data });
        proof {
            assert forall|p: ChunkPos| p != pos implies #[trigger] self.has(p) == old(self).has(p) by {
                lemma_chunk_key(p, pos);
                lemma_chunk_key(p, p);
            }
            assert forall|p: ChunkPos| p != pos && self.has(p) implies #[trigger] self.chunk(p)
                == old(self).chunk(p) by {
                lemma_chunk_key(p, pos);
                lemma_chunk_key(p, p);
            }
            assert forall|i: int| 0 <= i < self.pending@.len() implies !self.has(
                #[trigger] self.pending@[i],
            ) by {
                assert(self.pending@[i] != pos);
                assert(!old(self).has(self.pending@[i]));
            }
        }
    }
}

/// Block `b`'s coordinate along `axis` (0: x, 1: y, 2: z).
pub open spec fn coord(b: BlockPos, axis: u8) -> int {
    if axis == 0 {
        b.x as int
    } else if axis == 1 {
        b.y as int
    } else {
        b.z as int
    }
}

/// Whether block `b` lies in the box from `lo` to `hi`, both corners
/// included.
pub open spec fn in_box(b: BlockPos, lo: BlockPos, hi: BlockPos) -> bool {
    lo.x <= b.x <= hi.x && lo.y <= b.y <= hi.y && lo.z <= b.z <= hi.z
}

/// Whether `b` comes before `(x, y, z)` in the order a box is scanned (x,
/// then y, then z).
pub open spec fn scanned_before(b: BlockPos, x: int, y: int, z: int) -> bool {
    b.x < x || (b.x == x && (b.y < y || (b.y == y && b.z < z)))
}

/// `best` is the nearest solid coordinate along `axis` (the lowest when
/// `positive`, else the highest) among the blocks of the box scanned before
/// `(x, y, z)`, or `None` when none of them is solid.
pub open spec fn nearest_so_far(
    m: ChunkManager,
    lo: BlockPos,
    hi: BlockPos,
    axis: u8,
    positive: bool,
    best: Option<i32>,
    x: int,
    y: int,
    z: int,
) -> bool {
    &&& (best is None <==> forall|b: BlockPos|
        in_box(b, lo, hi) && scanned_before(b, x, y, z) ==> !#[trigger] solid_at(m, b))
    &&& (best matches Some(c) ==> {
        &&& exists|b: BlockPos|
            in_box(b, lo, hi) && scanned_before(b, x, y, z) && #[trigger] solid_at(m, b) && coord(b, axis)
                == c
        &&& forall|b: BlockPos|
            in_box(b, lo, hi) && scanned_before(b, x, y, z) && #[trigger] solid_at(m, b) ==> if positive {
                c <= coord(b, axis)
            } else {
                coord(b, axis) <= c
            }
    })
}

/// Scanning up to two positions that agree on every block of the box gives
/// the same answer.
proof fn lemma_nearest_same_scan(
    m: ChunkManager,
    lo: BlockPos,
    hi: BlockPos,
    axis: u8,
    positive: bool,
    best: Option<i32>,
    x1: int,
    y1: int,
    z1: int,
    x2: int,
    y2: int,
    z2: int,
)
    requires
        nearest_so_far(m, lo, hi, axis, positive, best, x1, y1, z1),
        forall|b: BlockPos|
            in_box(b, lo, hi) ==> (scanned_before(b, x1, y1, z1) == scanned_before(b, x2, y2, z2)),
    ensures
        nearest_so_far(m, lo, hi, axis, positive, best, x2, y2, z2),
{
    if best is Some {
        let c = best->0;
        let w = choose|b: BlockPos|
            in_box(b, lo, hi) && scanned_before(b, x1, y1, z1) && #[trigger] solid_at(m, b) && coord(b, axis)
                == c;
        assert(in_box(w, lo, hi) && scanned_before(w, x2, y2, z2) && solid_at(m, w));
    }
}

/// Collision follows the terrain: in a loaded chunk generated from a
/// heightmap, a block stops the player exactly when it lies below its
/// column's surface, whatever its type (stone, grass or sand); the water
/// and air above the surface never do.
pub proof fn lemma_solid_below_surface(m: ChunkManager, b: BlockPos, heights: Seq<i32>)
    requires
        m.has(chunk_of(b)),
        generated(m.chunk(chunk_of(b)).data, heights, chunk_of(b)),
    ensures
        solid_at(m, b) == (b.y < heights[column_index(b.x as int % 32 + 1, b.z as int % 32 + 1)]),
{
    let c = chunk_of(b);
    let lx = b.x as int % 32;
    let ly = b.y as int % 32;
    let lz = b.z as int % 32;
    assert(c.y == b.y as int / 32);
    assert(c.y * 32 + ly == b.y);
    assert(in_padded_box(lx + 1, ly, lz + 1));
    assert(generated_at(m.chunk(c).data, heights, c.y * 32, lx + 1, ly, lz + 1));
    let h = heights[column_index(lx + 1, lz + 1)] as int;
    lemma_solid_exactly_below_surface(h, b.y as int);
}

/// The window moves with the player: it always holds the player's own
/// chunk, and moving the player and a chunk by the same offset never
/// changes whether the chunk is wanted.
pub proof fn lemma_window_moves_with_player(
    c: ChunkPos,
    p: ChunkPos,
    c2: ChunkPos,
    p2: ChunkPos,
    tx: int,
    ty: int,
    tz: int,
)
    requires
        c2.x == c.x + tx && c2.y == c.y + ty && c2.z == c.z + tz,
        p2.x == p.x + tx && p2.y == p.y + ty && p2.z == p.z + tz,
    ensures
        desired(c, c),
        desired(c, p) == desired(c2, p2),
{
}

/// `new` is `old` with `batch` taken off the front of its queue: up to
/// `CHUNKS_PER_FRAME` chunks, in queue order; the loaded chunks and the
/// player's chunk are unchanged.
pub open spec fn taken(old: ChunkManager, new: ChunkManager, batch: Seq<ChunkPos>) -> bool {
    &&& batch.len() == if old.pending_chunks().len() < CHUNKS_PER_FRAME {
        old.pending_chunks().len()
    } else {
        CHUNKS_PER_FRAME as nat
    }
    &&& batch == old.pending_chunks().take(batch.len() as int)
    &&& new.pending_chunks() == old.pending_chunks().skip(batch.len() as int)
    &&& forall|p: ChunkPos| #[trigger] new.has(p) == old.has(p)
    &&& forall|p: ChunkPos| new.has(p) ==> #[trigger] new.chunk(p) == old.chunk(p)
    &&& new.last_chunk() == old.last_chunk()
}

/// `new` is `old` with chunk `pos` loaded from `data` (replacing any chunk
/// stored there): every other chunk, the queue and the player's chunk are
/// unchanged.
pub open spec fn inserted(
    old: ChunkManager,
    new: ChunkManager,
    pos: ChunkPos,
    entity: Option<u64>,
    data: ChunkData,
) -> bool {
    &&& new.has(pos)
    &&& new.chunk(pos) == (LoadedChunk { pos, entity, data })
    &&& forall|p: ChunkPos| p != pos ==> #[trigger] new.has(p) == old.has(p)
    &&& forall|p: ChunkPos| p != pos && new.has(p) ==> #[trigger] new.chunk(p) == old.chunk(p)
    &&& new.pending_chunks() == old.pending_chunks()
    &&& new.last_chunk() == old.last_chunk()
}

/// Collision reads what was loaded: after chunk `pos` is loaded from
/// `data`, a block of that chunk is solid exactly when `data` holds a solid
/// block at its local coordinate, and every block of another chunk reads as
/// it did before.
pub proof fn lemma_solid_after_insert(
    old: ChunkManager,
    new: ChunkManager,
    pos: ChunkPos,
    entity: Option<u64>,
    data: ChunkData,
    b: BlockPos,
)
    requires
        inserted(old, new, pos, entity, data),
    ensures
        solid_at(new, b) == if chunk_of(b) == pos {
            solid(data.local(b.x as int % 32, b.y as int % 32, b.z as int % 32))
        } else {
            solid_at(old, b)
        },
{
}

/// The first `i` loads of a frame: the loaded chunks are the old ones,
/// unchanged, plus the first `i` of the batch, each holding its data.
proof fn lemma_load_prefix(
    before: ChunkManager,
    states: Seq<ChunkManager>,
    batch: Seq<ChunkPos>,
    entities: Seq<Option<u64>>,
    datas: Seq<ChunkData>,
    i: int,
)
    requires
        0 <= i <= batch.len(),
        states.len() == batch.len() + 1,
        entities.len() == batch.len(),
        datas.len() == batch.len(),
        taken(before, states[0], batch),
        batch.no_duplicates(),
        forall|j: int| 0 <= j < batch.len() ==> !before.has(#[trigger] batch[j]),
        forall|j: int|
            0 <= j < batch.len() ==> #[trigger] inserted(
                states[j],
                states[j + 1],
                batch[j],
                entities[j],
                datas[j],
            ),
    ensures
        states[i].pending_chunks() == before.pending_chunks().skip(batch.len() as int),
        states[i].last_chunk() == before.last_chunk(),
        forall|p: ChunkPos| #[trigger] states[i].has(p) == (before.has(p) || batch.take(i).contains(p)),
        forall|p: ChunkPos| before.has(p) ==> #[trigger] states[i].chunk(p) == before.chunk(p),
        forall|j: int|
            0 <= j < i ==> #[trigger] states[i].chunk(batch[j]) == (LoadedChunk {
                pos: batch[j],
                entity: entities[j],
                data: datas[j],
            }),
    decreases i,
{
    if i == 0 {
        assert(batch.take(0) =~= Seq::<ChunkPos>::empty());
    } else {
        lemma_load_prefix(before, states, batch, entities, datas, i - 1);
        let q = batch[i - 1];
        let k = i - 1;
        assert(inserted(states[k], states[k + 1], batch[k], entities[k], datas[k]));
        assert(states[k + 1] == states[i]);
        assert(batch.take(i) =~= batch.take(i - 1).push(q));
        assert forall|p: ChunkPos| #[trigger] states[i].has(p) == (before.has(p) || batch.take(
            i,
        ).contains(p)) by {
            if p != q {
                assert(states[i].has(p) == states[i - 1].has(p));
                if batch.take(i).contains(p) {
                    let j = choose|j: int| 0 <= j < i && #[trigger] batch.take(i)[j] == p;
                    assert(batch.take(i - 1)[j] == p);
                }
                if batch.take(i - 1).contains(p) {
                    let j = choose|j: int| 0 <= j < i - 1 && #[trigger] batch.take(i - 1)[j] == p;
                    assert(batch.take(i)[j] == p);
                }
            } else {
                assert(batch.take(i)[i - 1] == q);
            }
        }
        assert forall|p: ChunkPos| before.has(p) implies #[trigger] states[i].chunk(p) == before.chunk(
            p,
        ) by {
            assert(p != q);
            assert(states[i - 1].has(p));
        }
        assert forall|j: int| 0 <= j < i implies #[trigger] states[i].chunk(batch[j]) == (LoadedChunk {
            pos: batch[j],
            entity: entities[j],
            data: datas[j],
        }) by {
            if j < i - 1 {
                assert(batch[j] != q);
                assert(batch.take(i - 1)[j] == batch[j]);
                assert(states[i - 1].has(batch[j]));
                assert(states[i - 1].chunk(batch[j]) == (LoadedChunk {
                    pos: batch[j],
                    entity: entities[j],
                    data: datas[j],
                }));
            }
        }
    }
}

/// One frame of loading: the batch is taken off the front of the queue,
/// then each of its chunks, in order, is generated from its heights and
/// loaded. Afterwards the queue is the rest of the old queue, the player's
/// chunk is unchanged, the loaded chunks are the old ones, unchanged, plus
/// the batch, and each chunk of the batch holds exactly the data generated
/// for it.
pub proof fn lemma_load_frame(
    before: ChunkManager,
    states: Seq<ChunkManager>,
    batch: Seq<ChunkPos>,
    entities: Seq<Option<u64>>,
    heights: Seq<Seq<i32>>,
    datas: Seq<ChunkData>,
)
    requires
        before.wf(),
        states.len() == batch.len() + 1,
        entities.len() == batch.len(),
        heights.len() == batch.len(),
        datas.len() == batch.len(),
        taken(before, states[0], batch),
        forall|j: int|
            0 <= j < batch.len() ==> generated(datas[j], heights[j], batch[j]) && #[trigger] inserted(
                states[j],
                states[j + 1],
                batch[j],
                entities[j],
                datas[j],
            ),
    ensures
        states.last().pending_chunks() == before.pending_chunks().skip(batch.len() as int),
        states.last().last_chunk() == before.last_chunk(),
        forall|p: ChunkPos| #[trigger] states.last().has(p) == (before.has(p) || batch.contains(p)),
        forall|p: ChunkPos| before.has(p) ==> #[trigger] states.last().chunk(p) == before.chunk(p),
        forall|j: int|
            0 <= j < batch.len() ==> #[trigger] states.last().chunk(batch[j]) == (LoadedChunk {
                pos: batch[j],
                entity: entities[j],
                data: datas[j],
            }) && generated(states.last().chunk(batch[j]).data, heights[j], batch[j]),
{
    before.lemma_queue();
    let pend = before.pending_chunks();
    assert forall|a: int, b: int| 0 <= a < batch.len() && 0 <= b < batch.len() && a != b implies batch[a]
        != batch[b] by {
        assert(batch[a] == pend[a]);
        assert(batch[b] == pend[b]);
    }
    assert forall|j: int| 0 <= j < batch.len() implies !before.has(#[trigger] batch[j]) by {
        assert(batch[j] == pend[j]);
    }
    assert forall|j: int| 0 <= j < batch.len() implies generated(datas[j], heights[j], batch[j]) by {
        assert(inserted(states[j], states[j + 1], batch[j], entities[j], datas[j]));
    }
    let n = batch.len() as int;
    assert(states.last() == states[n]);
    assert(batch.take(n) =~= batch);
    lemma_load_prefix(before, states, batch, entities, datas, n);
}

/// `s.push(x)` filtered is `s` filtered, then `x` if it passes.
proof fn lemma_filter_push<A>(s: Seq<A>, x: A, pred: spec_fn(A) -> bool)
    ensures
        s.push(x).filter(pred) == if pred(x) {
            s.filter(pred).push(x)
        } else {
            s.filter(pred)
        },
{
    reveal(Seq::filter);
    assert(s.push(x).drop_last() =~= s);
}

/// Whether `q`'s offset from `current` comes before `(dx, dz, dy)` in the
/// order the desired window is walked (x offset, then z, then y).
pub open spec fn walked_before(current: ChunkPos, q: ChunkPos, dx: int, dz: int, dy: int) -> bool {
    let ox = q.x - current.x;
    let oz = q.z - current.z;
    let oy = q.y - current.y;
    ox < dx || (ox == dx && oz < dz) || (ox == dx && oz == dz && oy < dy)
}

/// The window around `current` as a set: every chunk [`desired`] picks,
/// walked by x offset, then z, then y.
fn window_set(current: ChunkPos) -> (s: ChunkSet)
    requires
        current.window_in_range(),
    ensures
        forall|q: ChunkPos| #[trigger] chunk_set_contents(s).contains(q) <==> desired(current, q),
{
    let mut s = chunk_set_new();
    let r = crate::config::RENDER_DISTANCE;
    let mut dx: i32 = -r;
    while dx <= r
        invariant
            -4 <= dx <= 5,
            r == 4,
            current.window_in_range(),
            forall|q: ChunkPos|
                #[trigger] chunk_set_contents(s).contains(q) <==> desired(current, q) && q.x - current.x
                    < dx,
        decreases 5 - dx,
    {
        let mut dz: i32 = -r;
        while dz <= r
            invariant
                -4 <= dx <= 4,
                -4 <= dz <= 5,
                r == 4,
                current.window_in_range(),
                forall|q: ChunkPos|
                    #[trigger] chunk_set_contents(s).contains(q) <==> desired(current, q) && (q.x
                        - current.x < dx || (q.x - current.x == dx && q.z - current.z < dz)),
            decreases 5 - dz,
        {
            let mut dy: i32 = -r;
            while dy <= 0
                invariant
                    -4 <= dx <= 4,
                    -4 <= dz <= 4,
                    -4 <= dy <= 1,
                    r == 4,
                    current.window_in_range(),
                    forall|q: ChunkPos|
                        #[trigger] chunk_set_contents(s).contains(q) <==> desired(current, q)
                            && walked_before(current, q, dx as int, dz as int, dy as int),
                decreases 1 - dy,
            {
                let pos = ChunkPos::new(current.x + dx, current.y + dy, current.z + dz);
                chunk_set_insert(&mut s, pos);
                proof {
                    assert forall|q: ChunkPos| #[trigger] chunk_set_contents(s).contains(q) <==> desired(
                        current,
                        q,
                    ) && walked_before(current, q, dx as int, dz as int, dy + 1) by {
                        if q == pos {
                            assert(desired(current, q));
                        }
                    }
                }
                dy += 1;
            }
            dz += 1;
        }
        dx += 1;
    }
    s
}

impl ChunkManager {
    /// The keys of every loaded chunk outside the window around `current`,
    /// whose set of chunks is `window`.
    fn undesired_keys(&self, current: ChunkPos, window: &ChunkSet) -> (r: Vec<u128>)
        requires
            self.wf(),
            forall|q: ChunkPos| #[trigger] chunk_set_contents(*window).contains(q) <==> desired(current, q),
        ensures
            forall|k: u128|
                r@.contains(k) <==> loaded_contents(self.loaded).contains_key(k) && !desired(
                    current,
                    loaded_contents(self.loaded)[k].pos,
                ),
    {
        let ghost m = loaded_contents(self.loaded);
        let keys = loaded_keys(&self.loaded);
        let mut r: Vec<u128> = Vec::new();
        for i in 0..keys.len()
            invariant
                m == loaded_contents(self.loaded),
                forall|q: ChunkPos| #[trigger] chunk_set_contents(*window).contains(q) <==> desired(current, q),
                keys@.no_duplicates(),
                forall|k: u128| keys@.contains(k) <==> m.contains_key(k),
                forall|k: u128|
                    r@.contains(k) <==> keys@.take(i as int).contains(k) && !desired(current, m[k].pos),
        {
            let k = keys[i];
            let ghost r0 = r@;
            proof {
                assert(keys@.take(i + 1) =~= keys@.take(i as int).push(k));
                assert(keys@.contains(k));
                if keys@.take(i as int).contains(k) {
                    let j = choose|j: int| 0 <= j < i && #[trigger] keys@.take(i as int)[j] == k;
                    assert(keys@[j] == keys@[i as int]);
                }
            }
            match loaded_get(&self.loaded, k) {
                Some(chunk) => {
                    if !chunk_set_contains(window, chunk.pos) {
                        r.push(k);
                    }
                },
                None => {},
            }
            proof {
                assert(r@ == r0.push(k) || r@ == r0);
                assert(r@ == r0.push(k) <==> !desired(current, m[k].pos));
                assert forall|kk: u128|
                    r@.contains(kk) <==> keys@.take(i + 1).contains(kk) && !desired(current, m[kk].pos) by {
                    if kk == k {
                        assert(!r0.contains(k));
                        if r@ == r0.push(k) {
                            assert(r@[r0.len() as int] == k);
                        }
                        assert(keys@.take(i + 1)[i as int] == k);
                    } else {
                        if r@.contains(kk) {
                            let j = choose|j: int| 0 <= j < r@.len() && #[trigger] r@[j] == kk;
                            assert(r0[j] == kk);
                        }
                        if r0.contains(kk) {
                            let j = choose|j: int| 0 <= j < r0.len() && #[trigger] r0[j] == kk;
                            assert(r@[j] == kk);
                        }
                        if keys@.take(i + 1).contains(kk) {
                            let j = choose|j: int| 0 <= j < i + 1 && #[trigger] keys@.take(i + 1)[j] == kk;
                            assert(keys@.take(i as int)[j] == kk);
                        }
                        if keys@.take(i as int).contains(kk) {
                            let j = choose|j: int| 0 <= j < i && #[trigger] keys@.take(i as int)[j] == kk;
                            assert(keys@.take(i + 1)[j] == kk);
                        }
                    }
                }
            }
        }
        proof {
            assert(keys@.take(keys@.len() as int) =~= keys@);
        }
        r
    }
}

/// `new` is `old` re-centred on the window around `current`: the loaded
/// chunks are exactly the old ones inside the window, unchanged; `unloaded`
/// holds each old chunk outside the window exactly once; the pending queue
/// starts with the old pending chunks inside the window, in their old
/// order, and holds exactly the window's chunks that are not loaded.
pub open spec fn recentered(
    old: ChunkManager,
    new: ChunkManager,
    current: ChunkPos,
    unloaded: Seq<LoadedChunk>,
) -> bool {
    &&& forall|p: ChunkPos| #[trigger] new.has(p) == (old.has(p) && desired(current, p))
    &&& forall|p: ChunkPos| new.has(p) ==> #[trigger] new.chunk(p) == old.chunk(p)
    &&& forall|i: int|
        0 <= i < unloaded.len() ==> {
            &&& old.has(#[trigger] unloaded[i].pos)
            &&& !desired(current, unloaded[i].pos)
            &&& unloaded[i] == old.chunk(unloaded[i].pos)
        }
    &&& forall|p: ChunkPos|
        old.has(p) && !desired(current, p) ==> exists|i: int|
            0 <= i < unloaded.len() && #[trigger] unloaded[i].pos == p
    &&& forall|i: int, j: int| 0 <= i < j < unloaded.len() ==> unloaded[i].pos != unloaded[j].pos
    &&& ({
        let kept = old.pending_chunks().filter(|p: ChunkPos| desired(current, p));
        new.pending_chunks().take(kept.len() as int) == kept
    })
    &&& forall|p: ChunkPos| #[trigger]
        new.pending_chunks().contains(p) <==> desired(current, p) && !new.has(p)
}

impl ChunkManager {
    /// Unloads every loaded chunk outside the window around `current` and
    /// returns them (their render entities are the caller's to despawn),
    /// drops pending chunks outside the window (the rest keep their order),
    /// then queues every chunk of the window that is neither loaded nor
    /// already pending.
    #[verifier::spinoff_prover]
    #[verifier::rlimit(40)]
    pub fn recompute_desired_chunks(&mut self, current: ChunkPos) -> (unloaded: Vec<LoadedChunk>)
        requires
            old(self).wf(),
            current.window_in_range(),
        ensures
            final(self).wf(),
            final(self).last_chunk() == old(self).last_chunk(),
            recentered(*old(self), *final(self), current, unloaded@),
            final(self).pending_chunks().no_duplicates(),
    {
        let window = window_set(current);
        let ghost old_map = loaded_contents(self.loaded);
        let keys = self.undesired_keys(current, &window);
        let mut unloaded: Vec<LoadedChunk> = Vec::new();
        for i in 0..keys.len()
            invariant
                old(self).wf(),
                old_map == loaded_contents(old(self).loaded),
                forall|k: u128|
                    keys@.contains(k) <==> old_map.contains_key(k) && !desired(current, old_map[k].pos),
                forall|k: u128| #[trigger]
                    loaded_contents(self.loaded).contains_key(k) ==> old_map.contains_key(k) && loaded_contents(self.loaded)[k]
                        == old_map[k],
                forall|k: u128|
                    old_map.contains_key(k) && !keys@.take(i as int).contains(k)
                        ==> #[trigger] loaded_contents(self.loaded).contains_key(k),
                forall|k: u128| keys@.take(i as int).contains(k) ==> !#[trigger] loaded_contents(self.loaded).contains_key(k),
                forall|j: int|
                    0 <= j < unloaded@.len() ==> {
                        &&& old_map.contains_key(chunk_key(#[trigger] unloaded@[j].pos) as u128)
                        &&& old_map[chunk_key(unloaded@[j].pos) as u128] == unloaded@[j]
                        &&& !loaded_contents(self.loaded).contains_key(chunk_key(unloaded@[j].pos) as u128)
                    },
                forall|k: u128|
                    old_map.contains_key(k) && !#[trigger] loaded_contents(self.loaded).contains_key(k) ==> exists|j: int|
                        0 <= j < unloaded@.len() && chunk_key(#[trigger] unloaded@[j].pos) == k,
                forall|j1: int, j2: int|
                    0 <= j1 < j2 < unloaded@.len() ==> unloaded@[j1].pos != unloaded@[j2].pos,
                self.pending@ == old(self).pending@,
                self.last_player_chunk == old(self).last_player_chunk,
        {
            let ghost before = loaded_contents(self.loaded);
            let ghost u0 = unloaded@;
            let k = keys[i];
            assert(keys@.take(i + 1) =~= keys@.take(i as int).push(k));
            match loaded_remove(&mut self.loaded, k) {
                Some(chunk) => {
                    proof {
                        assert(old_map.contains_key(k));
                        assert(chunk_key(old_map[k].pos) == k);
                        lemma_chunk_key(chunk.pos, chunk.pos);
                        assert(chunk_key(chunk.pos) as u128 == k);
                    }
                    unloaded.push(chunk);
                    proof {
                        assert forall|j1: int, j2: int| 0 <= j1 < j2 < unloaded@.len() implies unloaded@[j1].pos
                            != unloaded@[j2].pos by {
                            if j2 == unloaded@.len() - 1 {
                                assert(unloaded@[j1] == u0[j1]);
                                assert(!before.contains_key(chunk_key(u0[j1].pos) as u128));
                            } else {
                                assert(unloaded@[j1] == u0[j1]);
                                assert(unloaded@[j2] == u0[j2]);
                            }
                        }
                        assert forall|j: int| 0 <= j < unloaded@.len() implies {
                            &&& old_map.contains_key(chunk_key(#[trigger] unloaded@[j].pos) as u128)
                            &&& old_map[chunk_key(unloaded@[j].pos) as u128] == unloaded@[j]
                            &&& !loaded_contents(self.loaded).contains_key(chunk_key(unloaded@[j].pos) as u128)
                        } by {
                            if j < u0.len() {
                                assert(unloaded@[j] == u0[j]);
                            }
                        }
                        assert forall|kk: u128|
                            old_map.contains_key(kk) && !#[trigger] loaded_contents(self.loaded).contains_key(kk) implies exists|j: int|
                            0 <= j < unloaded@.len() && chunk_key(#[trigger] unloaded@[j].pos) == kk by {
                            if kk == k {
                                assert(chunk_key(unloaded@[u0.len() as int].pos) == kk);
                            } else {
                                assert(!before.contains_key(kk));
                                let j = choose|j: int| 0 <= j < u0.len() && chunk_key(#[trigger] u0[j].pos) == kk;
                                assert(unloaded@[j] == u0[j]);
                            }
                        }
                    }
                },
                None => {
                },
            }
            proof {
                assert forall|kk: u128|
                    old_map.contains_key(kk) && !keys@.take(i + 1).contains(kk)
                        implies #[trigger] loaded_contents(self.loaded).contains_key(kk) by {
                    assert(!keys@.take(i as int).contains(kk));
                    assert(before.contains_key(kk));
                    assert(keys@.take(i + 1)[i as int] == k);
                    assert(kk != k);
                }
            }
        }
        proof {
            assert(keys@.take(keys@.len() as int) =~= keys@);
            assert forall|p: ChunkPos| old(self).has(p) && !desired(current, p) implies exists|i: int|
                0 <= i < unloaded@.len() && #[trigger] unloaded@[i].pos == p by {
                let k = chunk_key(p) as u128;
                lemma_chunk_key(p, p);
                old(self).lemma_loaded_chunk(p);
                assert(keys@.contains(k));
                assert(!loaded_contents(self.loaded).contains_key(k));
                let j = choose|j: int| 0 <= j < unloaded@.len() && chunk_key(#[trigger] unloaded@[j].pos) == k;
                lemma_chunk_key(unloaded@[j].pos, p);
            }
        }

        let ghost old_pending = self.pending@;
        let ghost dpred = |p: ChunkPos| desired(current, p);
        let mut kept: Vec<ChunkPos> = Vec::new();
        for i in 0..self.pending.len()
            invariant
                self.pending@ == old_pending,
                dpred == (|p: ChunkPos| desired(current, p)),
                forall|q: ChunkPos| #[trigger] chunk_set_contents(window).contains(q) <==> desired(current, q),
                kept@ == old_pending.take(i as int).filter(dpred),
        {
            let p = self.pending[i];
            proof {
                assert(old_pending.take(i + 1) =~= old_pending.take(i as int).push(p));
                lemma_filter_push(old_pending.take(i as int), p, dpred);
            }
            if chunk_set_contains(&window, p) {
                kept.push(p);
            }
        }
        proof {
            assert(old_pending.take(old_pending.len() as int) =~= old_pending);
            assert forall|i: int| 0 <= i < kept@.len() implies desired(current, #[trigger] kept@[i]) && old_pending.contains(kept@[i]) by {
                old_pending.lemma_filter_pred(dpred, i);
                old_pending.lemma_filter_contains_rev(dpred, kept@[i]);
            }
            lemma_filter_no_duplicates(old_pending, dpred);
        }
        self.pending = kept;
        let ghost kept_seq = self.pending@;
        let ghost loaded1 = loaded_contents(self.loaded);
        proof {
            assert(self.pending@.take(kept_seq.len() as int) =~= kept_seq);
        }

        let elems = chunk_set_elems(&window);
        for i in 0..elems.len()
            invariant
                self.wf(),
                forall|q: ChunkPos| elems@.contains(q) <==> desired(current, q),
                self.pending@.take(kept_seq.len() as int) == kept_seq,
                kept_seq.len() <= self.pending@.len(),
                forall|j: int|
                    0 <= j < self.pending@.len() ==> desired(current, #[trigger] self.pending@[j]),
                forall|j: int|
                    0 <= j < i && !self.has(#[trigger] elems@[j]) ==> self.pending@.contains(elems@[j]),
                loaded_contents(self.loaded) == loaded1,
                self.last_player_chunk == old(self).last_player_chunk,
        {
            let pos = elems[i];
            let ghost p0 = self.pending@;
            proof {
                lemma_chunk_key(pos, pos);
                assert(elems@.contains(pos));
            }
            if !loaded_contains(&self.loaded, key_of(pos)) && !self.is_pending(pos) {
                self.pending.push(pos);
                proof {
                    assert(self.pending@.take(kept_seq.len() as int) =~= p0.take(kept_seq.len() as int));
                    assert forall|a: int, b: int|
                        0 <= a < b < self.pending@.len() implies self.pending@[a] != self.pending@[b] by {
                        if b == p0.len() {
                            assert(p0.contains(p0[a]));
                        }
                    }
                    assert forall|j: int| 0 <= j < self.pending@.len() implies !self.has(
                        #[trigger] self.pending@[j],
                    ) by {
                        if j < p0.len() {
                            assert(p0[j] == self.pending@[j]);
                        }
                    }
                    assert forall|j: int| 0 <= j < i + 1 && !self.has(#[trigger] elems@[j]) implies self.pending@.contains(
                        elems@[j],
                    ) by {
                        if j == i {
                            assert(self.pending@[p0.len() as int] == pos);
                        } else {
                            let k = choose|k: int| 0 <= k < p0.len() && p0[k] == elems@[j];
                            assert(self.pending@[k] == elems@[j]);
                        }
                    }
                }
            }
        }
        proof {
            assert forall|q: ChunkPos| #[trigger] self.pending@.contains(q) <==> desired(current, q)
                && !self.has(q) by {
                if self.pending@.contains(q) {
                    let j = choose|j: int| 0 <= j < self.pending@.len() && self.pending@[j] == q;
                    assert(desired(current, self.pending@[j]));
                    assert(!self.has(self.pending@[j]));
                }
                if desired(current, q) && !self.has(q) {
                    assert(elems@.contains(q));
                    let j = choose|j: int| 0 <= j < elems@.len() && elems@[j] == q;
                    assert(!self.has(elems@[j]));
                }
            }
        }
        unloaded
    }
}

impl ChunkManager {
    /// Confirms the player is in chunk `current` (already resolved with
    /// hysteresis by the caller). When that differs from the last confirmed
    /// chunk, it is recorded and the window re-centred on it, returning the
    /// chunks that left the window; otherwise nothing changes.
    pub fn update_player_chunk(&mut self, current: ChunkPos) -> (unloaded: Vec<LoadedChunk>)
        requires
            old(self).wf(),
            current.window_in_range(),
        ensures
            final(self).wf(),
            final(self).pending_chunks().no_duplicates(),
            final(self).last_chunk() == Some(current),
            old(self).last_chunk() == Some(current) ==> unloaded@.len() == 0 && *final(self)
                == *old(self),
            old(self).last_chunk() != Some(current) ==> recentered(
                *old(self),
                *final(self),
                current,
                unloaded@,
            ),
    {
        if self.last_player_chunk != Some(current) {
            self.last_player_chunk = Some(current);
            self.recompute_desired_chunks(current)
        } else {
            Vec::new()
        }
    }
}

/// A fresh manager for entering play: nothing loaded and no player chunk;
/// with [`DEBUG_FIXED_CHUNK_GRID`] the fixed debug grid is queued.
pub fn reset() -> (m: ChunkManager)
    ensures
        m.wf(),
        forall|p: ChunkPos| !m.has(p),
        m.last_chunk() is None,
        m.pending_chunks() == if DEBUG_FIXED_CHUNK_GRID {
            fixed_debug_chunks_spec()
        } else {
            Seq::<ChunkPos>::empty()
        },
{
    let mut manager = ChunkManager::new();
    if DEBUG_FIXED_CHUNK_GRID {
        let grid = fixed_debug_chunks();
        manager.pending = vec![grid[0], grid[1], grid[2], grid[3]];
    }
    manager
}

/// The debug grid as a sequence.
pub open spec fn fixed_debug_chunks_spec() -> Seq<ChunkPos> {
    seq![
        ChunkPos { x: 0, y: 0, z: 0 },
        ChunkPos { x: 1, y: 0, z: 0 },
        ChunkPos { x: 0, y: 0, z: 1 },
        ChunkPos { x: 1, y: 0, z: 1 },
    ]
}

impl Default for ChunkManager {
    fn default() -> (m: Self)
        ensures
            m.wf(),
            forall|p: ChunkPos| !m.has(p),
            m.pending_chunks() == Seq::<ChunkPos>::empty(),
            m.last_chunk() is None,
    {
        ChunkManager::new()
    }
}

/// After re-centring, the window around `current` is exactly what is
/// loaded or waiting to load: nothing outside it is kept, and every chunk of
/// it is either loaded or queued, never both.
pub proof fn lemma_recentered_window(
    old: ChunkManager,
    new: ChunkManager,
    current: ChunkPos,
    unloaded: Seq<LoadedChunk>,
    p: ChunkPos,
)
    requires
        recentered(old, new, current, unloaded),
    ensures
        desired(current, p) <==> (new.has(p) || new.pending_chunks().contains(p)),
        !(new.has(p) && new.pending_chunks().contains(p)),
{
}

/// Filtering keeps a sequence free of duplicates.
proof fn lemma_filter_no_duplicates<A>(s: Seq<A>, pred: spec_fn(A) -> bool)
    requires
        s.no_duplicates(),
    ensures
        s.filter(pred).no_duplicates(),
    decreases s.len(),
{
    reveal(Seq::filter);
    if s.len() > 0 {
        lemma_filter_no_duplicates(s.drop_last(), pred);
        if pred(s.last()) {
            let f = s.drop_last().filter(pred);
            if f.contains(s.last()) {
                s.drop_last().lemma_filter_contains_rev(pred, s.last());
                let i = choose|i: int| 0 <= i < s.drop_last().len() && s.drop_last()[i] == s.last();
                assert(s[i] == s[s.len() - 1]);
            }
            assert forall|i: int, j: int| 0 <= i < j < f.push(s.last()).len() implies f.push(s.last())[i] != f.push(s.last())[j] by {
                if j == f.len() {
                    assert(f.contains(f[i]));
                }
            }
        }
    }
}

} // verus!
