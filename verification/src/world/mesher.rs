//! Binary greedy meshing: turns a chunk's block data into merged quads.
//!
//! For each of the three axes, blocks are packed into per-column bit words
//! (a whole 32-block column, plus padding, fits in one `u64`). Face
//! visibility for an entire column is then a couple of bitwise operations
//! (`column & !(column >> 1)` finds every "opaque here, open above" bit at
//! once). Each resulting 2D slice of visible faces is split by block type,
//! so a stone quad never merges with a grass one, and each type's slice is
//! greedily merged into rectangles.

use vstd::prelude::*;
use super::bits::{
    bit32, bit64, lemma_bit32_one_shl, lemma_bit64_set, lemma_bit64_zero, lemma_face_above,
    lemma_face_below, lemma_bit32_and, lemma_bit32_and_not, lemma_bit32_or, lemma_bit32_zero,
    lemma_clear_decreases, lemma_missing_bit, lemma_run_end, lemma_run_mask, lemma_run_start,
    lemma_run_start_low,
};
use super::chunk::{
    is_opaque, opaque, padded_index, BlockId, ChunkData, ChunkPos, BLOCK_TYPE_COUNT, CHUNK_SIZE,
    PADDED_SIZE, PADDING,
};
use super::generator::{
    column_index, generated, generated_at, lemma_columns_fill_downward, terrain_block,
};

verus! {

broadcast use {vstd::std_specs::bits::group_bits_axioms, vstd::array::group_array_axioms};

/// A `CHUNK_SIZE`-wide 2D bit grid, one `u32` per row: bit `a` of row `b` is
/// cell `(a, b)`.
pub type Mask = [u32; 32];

/// A rectangle of cells `a..a + width` by `b..b + height`.
#[derive(Clone, Copy, Debug, PartialEq, Eq, Structural)]
pub struct MergedRect {
    pub a: usize,
    pub width: usize,
    pub b: usize,
    pub height: usize,
}

impl MergedRect {
    /// Whether cell `(a, b)` lies in the rectangle.
    pub open spec fn covers(self, a: int, b: int) -> bool {
        self.a <= a < self.a + self.width && self.b <= b < self.b + self.height
    }

    /// A non-empty rectangle inside the 32 x 32 grid.
    pub open spec fn wf(self) -> bool {
        &&& 1 <= self.width
        &&& self.a + self.width <= 32
        &&& 1 <= self.height
        &&& self.b + self.height <= 32
    }
}

/// Whether cell `(a, b)` of the grid is set.
pub open spec fn mask_cell(mask: Seq<u32>, a: int, b: int) -> bool {
    0 <= b < 32 && bit32(mask[b], a)
}

/// Whether some rectangle covers cell `(a, b)`.
pub open spec fn covered(rects: Seq<MergedRect>, a: int, b: int) -> bool {
    exists|i: int| 0 <= i < rects.len() && #[trigger] rects[i].covers(a, b)
}

/// Every rectangle covers only set cells.
pub open spec fn rects_in_mask(rects: Seq<MergedRect>, mask: Seq<u32>) -> bool {
    forall|i: int, a: int, b: int|
        0 <= i < rects.len() && #[trigger] rects[i].covers(a, b) ==> mask_cell(mask, a, b)
}

/// No cell is covered by two different rectangles.
pub open spec fn rects_disjoint(rects: Seq<MergedRect>) -> bool {
    forall|i: int, j: int, a: int, b: int|
        0 <= i < rects.len() && 0 <= j < rects.len() && #[trigger] rects[i].covers(a, b)
            && #[trigger] rects[j].covers(a, b) ==> i == j
}

/// `rects` tile exactly the set cells of `mask`: each is a non-empty
/// rectangle of set cells, no two overlap, and every set cell is covered.
pub open spec fn tiles(rects: Seq<MergedRect>, mask: Seq<u32>) -> bool {
    &&& forall|i: int| 0 <= i < rects.len() ==> (#[trigger] rects[i]).wf()
    &&& rects_in_mask(rects, mask)
    &&& rects_disjoint(rects)
    &&& forall|a: int, b: int| #[trigger] mask_cell(mask, a, b) ==> covered(rects, a, b)
}

/// The set cells of `mask`, as a predicate on cells.
pub open spec fn mask_cells(mask: Seq<u32>) -> spec_fn(int, int) -> bool {
    |a: int, b: int| mask_cell(mask, a, b)
}

/// Whether cell `(x, y)` is one of `cells` and covered by none of `rects`.
pub open spec fn free_cell(cells: spec_fn(int, int) -> bool, rects: Seq<MergedRect>, x: int, y: int) -> bool {
    cells(x, y) && !covered(rects, x, y)
}

/// Whether `rects[i]` is the rectangle the greedy scan picks after the ones
/// before it: it starts at the first cell, in row order, that is one of
/// `cells` and not yet covered; it is as wide as the run of such cells from
/// there within its row; and it reaches down to the first row where that
/// run is no longer all such cells.
pub open spec fn greedy_pick(rects: Seq<MergedRect>, cells: spec_fn(int, int) -> bool, i: int) -> bool {
    let r = rects[i];
    let before = rects.take(i);
    &&& free_cell(cells, before, r.a as int, r.b as int)
    &&& forall|x: int, y: int|
        (y < r.b || (y == r.b && x < r.a)) ==> !#[trigger] free_cell(cells, before, x, y)
    &&& (r.a + r.width == 32 || !free_cell(cells, before, r.a + r.width, r.b as int))
    &&& (r.b + r.height == 32 || exists|x: int|
        r.a <= x < r.a + r.width && !#[trigger] free_cell(cells, before, x, r.b + r.height))
}

/// `rects` is the greedy merge of `cells`: valid, disjoint rectangles that
/// cover exactly `cells`, each the greedy pick after the ones before it.
#[verifier::opaque]
pub open spec fn greedy_tiling(rects: Seq<MergedRect>, cells: spec_fn(int, int) -> bool) -> bool {
    &&& forall|i: int| 0 <= i < rects.len() ==> (#[trigger] rects[i]).wf()
    &&& forall|i: int, a: int, b: int|
        0 <= i < rects.len() && #[trigger] rects[i].covers(a, b) ==> cells(a, b)
    &&& rects_disjoint(rects)
    &&& forall|a: int, b: int| #[trigger] cells(a, b) ==> covered(rects, a, b)
    &&& forall|i: int| 0 <= i < rects.len() ==> #[trigger] greedy_pick(rects, cells, i)
}

/// Bookkeeping of a merge in progress: the rectangles so far are valid and
/// disjoint, lie in the mask, and cover exactly the consumed cells.
spec fn merge_state(mask: Seq<u32>, consumed: Seq<u32>, rects: Seq<MergedRect>) -> bool {
    &&& mask.len() == 32
    &&& consumed.len() == 32
    &&& forall|i: int| 0 <= i < rects.len() ==> (#[trigger] rects[i]).wf()
    &&& rects_in_mask(rects, mask)
    &&& rects_disjoint(rects)
    &&& forall|x: int, y: int|
        #![trigger bit32(consumed[y], x)]
        #![trigger covered(rects, x, y)]
        0 <= y < 32 ==> (bit32(consumed[y], x) <==> covered(rects, x, y))
}

proof fn lemma_covered_push(rects: Seq<MergedRect>, r: MergedRect, a: int, b: int)
    ensures
        covered(rects.push(r), a, b) == (covered(rects, a, b) || r.covers(a, b)),
{
    let s = rects.push(r);
    if covered(rects, a, b) {
        let i = choose|i: int| 0 <= i < rects.len() && #[trigger] rects[i].covers(a, b);
        assert(s[i] == rects[i]);
    }
    if r.covers(a, b) {
        assert(s[rects.len() as int] == r);
    }
    if covered(s, a, b) {
        let i = choose|i: int| 0 <= i < s.len() && #[trigger] s[i].covers(a, b);
        if i < rects.len() {
            assert(s[i] == rects[i]);
        }
    }
}

/// Greedily merges every set bit of `mask` into rectangles: scanning rows in
/// order, the lowest unconsumed set bit of a row starts a run as wide as the
/// contiguous set bits from there, grown downward over every following row
/// where that whole run is still set and unconsumed. The rectangles tile
/// the set bits exactly, each is the greedy pick after the ones before it
/// (see [`greedy_tiling`]), and there are at most `32 * 32` of them.
pub fn greedy_merge(mask: Mask) -> (rects: Vec<MergedRect>)
    ensures
        tiles(rects@, mask@),
        greedy_tiling(rects@, mask_cells(mask@)),
        rects@.len() <= 1024,
{
    let n = CHUNK_SIZE;
    let mut consumed: Mask = [0u32; 32];
    let mut rects: Vec<MergedRect> = Vec::new();
    proof {
        assert forall|x: int, y: int| 0 <= y < 32 implies (bit32(consumed@[y], x) <==> covered(
            rects@,
            x,
            y,
        )) by {
            lemma_bit32_zero(x);
        }
    }

    for b in 0..n
        invariant
            n == 32,
            merge_state(mask@, consumed@, rects@),
            forall|i: int| 0 <= i < rects@.len() ==> #[trigger] greedy_pick(rects@, mask_cells(mask@), i),
            rects@.len() <= 32 * b,
            forall|x: int, y: int|
                0 <= y < b && #[trigger] mask_cell(mask@, x, y) ==> bit32(consumed@[y], x),
    {
        let mut row = mask[b] & !consumed[b];
        let mut iters: usize = 0;
        let ghost mut pos: int = 0;
        proof {
            assert forall|x: int| bit32(row, x) <==> (mask_cell(mask@, x, b as int) && !bit32(
                consumed@[b as int],
                x,
            )) by {
                lemma_bit32_and_not(mask@[b as int], consumed@[b as int], x);
            }
        }
        while row != 0
            invariant
                n == 32,
                b < 32,
                merge_state(mask@, consumed@, rects@),
                forall|i: int| 0 <= i < rects@.len() ==> #[trigger] greedy_pick(rects@, mask_cells(mask@), i),
                forall|x: int, y: int|
                    0 <= y < b && #[trigger] mask_cell(mask@, x, y) ==> bit32(consumed@[y], x),
                forall|x: int|
                    #![trigger bit32(row, x)]
                    bit32(row, x) <==> (mask_cell(mask@, x, b as int) && !bit32(
                        consumed@[b as int],
                        x,
                    )),
                forall|x: int| 0 <= x < pos ==> !#[trigger] bit32(row, x),
                iters <= pos <= 32,
                rects@.len() <= 32 * b + iters,
            decreases row,
        {
            let ghost consumed0 = consumed@;
            let ghost rects0 = rects@;
            let ghost row0 = row;

            let a = row.trailing_zeros() as usize;
            proof {
                assert(a < 32);
                assert(bit32(row, a as int));
                assert forall|x: int| 0 <= x < a implies !bit32(row, x) by {
                    assert((row >> (x as u32)) & 1u32 == 0u32);
                }
                if a < pos {
                    assert(!bit32(row, a as int));
                }
                assert(free_cell(mask_cells(mask@), rects0, a as int, b as int));
                assert forall|x: int, y: int| (y < b || (y == b && x < a)) implies !#[trigger] free_cell(
                    mask_cells(mask@),
                    rects0,
                    x,
                    y,
                ) by {
                    if 0 <= y < b && mask_cell(mask@, x, y) {
                        assert(bit32(consumed0[y], x));
                    }
                    if y == b && x < a && mask_cell(mask@, x, y) {
                        assert(!bit32(row, x));
                        assert(bit32(consumed0[y], x));
                    }
                }
            }
            let inverted = !(row >> (a as u32));
            let tz = inverted.trailing_zeros() as usize;
            proof {
                lemma_run_start_low(row, a as u32);
                assert(tz >= 1);
            }
            let width = tz.min(n - a);
            proof {
                assert(1 <= width <= 32 - a);
                if a + width < 32 {
                    assert(width == tz);
                    lemma_run_end(row, a as u32, tz as u32);
                    assert(!free_cell(mask_cells(mask@), rects0, a + width, b as int));
                }
                assert forall|x: int| a <= x < a + width implies bit32(row, x) by {
                    let j = (x - a) as u32;
                    assert((inverted >> j) & 1u32 == 0u32);
                    lemma_run_start(row, a as u32, j);
                }
            }
            let run_mask: u32 = if width == 32 {
                u32::MAX
            } else {
                proof {
                    lemma_run_mask(width as u32, a as u32, 0);
                }
                ((1u32 << (width as u32)) - 1) << (a as u32)
            };
            proof {
                assert forall|x: int| #[trigger] bit32(run_mask, x) == (a <= x < a + width) by {
                    lemma_run_mask(width as u32, a as u32, x);
                }
            }

            proof {
                assert forall|x: int, y: int| b <= y < b + 1 && a <= x < a + width implies
                    #[trigger] mask_cell(mask@, x, y) && !bit32(consumed0[y], x) by {
                    assert(bit32(row, x));
                }
            }
            let mut height: usize = 1;
            while b + height < n && (mask[b + height] & !consumed[b + height]) & run_mask
                == run_mask
                invariant
                    n == 32,
                    b < 32,
                    consumed@ == consumed0,
                    mask@.len() == 32,
                    consumed0.len() == 32,
                    1 <= height,
                    b + height <= 32,
                    forall|x: int| #[trigger] bit32(run_mask, x) == (a <= x < a + width),
                    forall|x: int, y: int|
                        b <= y < b + height && a <= x < a + width ==> #[trigger] mask_cell(
                            mask@,
                            x,
                            y,
                        ) && !bit32(consumed0[y], x),
                decreases 32 - height,
            {
                proof {
                    let y = (b + height) as int;
                    let m = mask@[y];
                    let c = consumed0[y];
                    assert forall|x: int| a <= x < a + width implies #[trigger] mask_cell(
                        mask@,
                        x,
                        y,
                    ) && !bit32(consumed0[y], x) by {
                        lemma_bit32_and(m & !c, run_mask, x);
                        lemma_bit32_and_not(m, c, x);
                    }
                }
                height += 1;
            }
            proof {
                if b + height < 32 {
                    let y = (b + height) as int;
                    let v = mask@[y] & !consumed0[y];
                    assert(v & run_mask != run_mask);
                    let x = lemma_missing_bit(v, run_mask);
                    lemma_bit32_and_not(mask@[y], consumed0[y], x);
                    assert(a <= x < a + width);
                    assert(!free_cell(mask_cells(mask@), rects0, x, y));
                }
            }

            let ghost r = MergedRect { a, width, b, height };
            for db in 0..height
                invariant
                    b + height <= 32,
                    consumed@.len() == 32,
                    consumed0.len() == 32,
                    forall|y: int|
                        0 <= y < 32 ==> #[trigger] consumed@[y] == if b <= y < b + db {
                            consumed0[y] | run_mask
                        } else {
                            consumed0[y]
                        },
            {
                consumed[b + db] = consumed[b + db] | run_mask;
            }
            row = row & !run_mask;
            rects.push(MergedRect { a, width, b, height });

            proof {
                lemma_clear_decreases(row0, run_mask, a as u32);
                assert(rects@ == rects0.push(r));
                assert forall|x: int, y: int| 0 <= y < 32 implies #[trigger] bit32(consumed@[y], x)
                    == (bit32(consumed0[y], x) || r.covers(x, y)) by {
                    if b <= y < b + height {
                        lemma_bit32_or(consumed0[y], run_mask, x);
                    }
                }
                assert forall|x: int, y: int| 0 <= y < 32 implies (bit32(consumed@[y], x)
                    <==> covered(rects@, x, y)) by {
                    lemma_covered_push(rects0, r, x, y);
                    assert(bit32(consumed0[y], x) <==> covered(rects0, x, y));
                }
                assert forall|i: int, x: int, y: int|
                    0 <= i < rects@.len() && #[trigger] rects@[i].covers(x, y) implies mask_cell(
                    mask@,
                    x,
                    y,
                ) by {
                    if i < rects0.len() {
                        assert(rects@[i] == rects0[i]);
                    }
                }
                assert forall|i: int, j: int, x: int, y: int|
                    0 <= i < rects@.len() && 0 <= j < rects@.len() && #[trigger] rects@[i].covers(
                        x,
                        y,
                    ) && #[trigger] rects@[j].covers(x, y) implies i == j by {
                    let last = rects0.len() as int;
                    if i < last && j < last {
                        assert(rects@[i] == rects0[i]);
                        assert(rects@[j] == rects0[j]);
                    } else if i < last {
                        assert(rects@[i] == rects0[i]);
                        assert(covered(rects0, x, y));
                        assert(bit32(consumed0[y], x));
                    } else if j < last {
                        assert(rects@[j] == rects0[j]);
                        assert(covered(rects0, x, y));
                        assert(bit32(consumed0[y], x));
                    }
                }
                assert forall|i: int| 0 <= i < rects@.len() implies (#[trigger] rects@[i]).wf() by {
                    if i < rects0.len() {
                        assert(rects@[i] == rects0[i]);
                    }
                }
                assert forall|i: int| 0 <= i < rects@.len() implies #[trigger] greedy_pick(
                    rects@,
                    mask_cells(mask@),
                    i,
                ) by {
                    if i < rects0.len() {
                        assert(rects@.take(i) =~= rects0.take(i));
                        assert(rects@[i] == rects0[i]);
                        assert(greedy_pick(rects0, mask_cells(mask@), i));
                    } else {
                        assert(rects@.take(i) =~= rects0);
                        assert(rects@[i] == r);
                    }
                }
                assert forall|x: int|
                    #![trigger bit32(row, x)]
                    bit32(row, x) <==> (mask_cell(mask@, x, b as int) && !bit32(
                        consumed@[b as int],
                        x,
                    )) by {
                    lemma_bit32_and_not(row0, run_mask, x);
                    lemma_bit32_or(consumed0[b as int], run_mask, x);
                }
                assert forall|x: int| 0 <= x < a + width implies !#[trigger] bit32(row, x) by {
                    lemma_bit32_and_not(row0, run_mask, x);
                }
                assert forall|x: int, y: int|
                    0 <= y < b && #[trigger] mask_cell(mask@, x, y) implies bit32(
                    consumed@[y],
                    x,
                ) by {
                    assert(bit32(consumed0[y], x));
                }
                pos = a + width;
            }
            iters += 1;
        }
        proof {
            assert forall|x: int, y: int|
                0 <= y < b + 1 && #[trigger] mask_cell(mask@, x, y) implies bit32(
                consumed@[y],
                x,
            ) by {
                if y == b {
                    lemma_bit32_zero(x);
                    assert(!bit32(row, x));
                }
            }
        }
    }
    proof {
        assert forall|a: int, b: int| #[trigger] mask_cell(mask@, a, b) implies covered(
            rects@,
            a,
            b,
        ) by {
            assert(bit32(consumed@[b], a));
        }
        reveal(greedy_tiling);
        assert forall|a: int, b: int| #[trigger] mask_cells(mask@)(a, b) implies covered(
            rects@,
            a,
            b,
        ) by {
            assert(mask_cell(mask@, a, b));
        }
    }
    rects
}


/// The six directions a block face can point in.
#[derive(Clone, Copy, Debug, PartialEq, Eq, Structural)]
pub enum Face {
    /// +Y
    Up,
    /// -Y
    Down,
    /// +X
    Right,
    /// -X
    Left,
    /// +Z
    Front,
    /// -Z
    Back,
}

/// A merged, single-block-type rectangle of faces: `rect`'s `(a, b)` cells
/// lie in layer `layer` of the face's axis, with `(a, b)` being `(x, z)` for
/// `Up`/`Down`, `(y, z)` for `Right`/`Left`, and `(x, y)` for
/// `Front`/`Back`.
#[derive(Clone, Copy, Debug, PartialEq, Eq, Structural)]
pub struct Quad {
    pub face: Face,
    pub layer: usize,
    pub rect: MergedRect,
    pub block: BlockId,
}

/// The layer (along the face's axis) that local block `(x, y, z)` sits in.
pub open spec fn layer_of(face: Face, x: int, y: int, z: int) -> int {
    match face {
        Face::Up | Face::Down => y,
        Face::Right | Face::Left => x,
        Face::Front | Face::Back => z,
    }
}

/// The in-layer `a` coordinate of local block `(x, y, z)`.
pub open spec fn a_of(face: Face, x: int, y: int, z: int) -> int {
    match face {
        Face::Up | Face::Down => x,
        Face::Right | Face::Left => y,
        Face::Front | Face::Back => x,
    }
}

/// The in-layer `b` coordinate of local block `(x, y, z)`.
pub open spec fn b_of(face: Face, x: int, y: int, z: int) -> int {
    match face {
        Face::Up | Face::Down => z,
        Face::Right | Face::Left => z,
        Face::Front | Face::Back => y,
    }
}

/// Whether `q` draws the `q.face` face of local block `(x, y, z)`.
pub open spec fn quad_covers(q: Quad, x: int, y: int, z: int) -> bool {
    q.layer == layer_of(q.face, x, y, z) && q.rect.covers(
        a_of(q.face, x, y, z),
        b_of(q.face, x, y, z),
    )
}

/// A quad within the chunk: a valid rectangle in one of the 32 layers.
pub open spec fn quad_wf(q: Quad) -> bool {
    q.layer < 32 && q.rect.wf()
}

/// Corner `k` (0..4) of a quad, in chunk-local block units, in the winding
/// order each face is drawn with.
pub open spec fn quad_corner(q: Quad, k: int) -> (u32, u32, u32) {
    let r = q.rect;
    let a0 = r.a as u32;
    let a1 = (r.a + r.width) as u32;
    let b0 = r.b as u32;
    let b1 = (r.b + r.height) as u32;
    let low = q.layer as u32;
    let high = (q.layer + 1) as u32;
    match q.face {
        Face::Up => if k == 0 {
            (a0, high, b0)
        } else if k == 1 {
            (a0, high, b1)
        } else if k == 2 {
            (a1, high, b1)
        } else {
            (a1, high, b0)
        },
        Face::Down => if k == 0 {
            (a0, low, b1)
        } else if k == 1 {
            (a0, low, b0)
        } else if k == 2 {
            (a1, low, b0)
        } else {
            (a1, low, b1)
        },
        Face::Right => if k == 0 {
            (high, a0, b0)
        } else if k == 1 {
            (high, a1, b0)
        } else if k == 2 {
            (high, a1, b1)
        } else {
            (high, a0, b1)
        },
        Face::Left => if k == 0 {
            (low, a0, b1)
        } else if k == 1 {
            (low, a1, b1)
        } else if k == 2 {
            (low, a1, b0)
        } else {
            (low, a0, b0)
        },
        Face::Front => if k == 0 {
            (a0, b0, high)
        } else if k == 1 {
            (a1, b0, high)
        } else if k == 2 {
            (a1, b1, high)
        } else {
            (a0, b1, high)
        },
        Face::Back => if k == 0 {
            (a1, b0, low)
        } else if k == 1 {
            (a0, b0, low)
        } else if k == 2 {
            (a0, b1, low)
        } else {
            (a1, b1, low)
        },
    }
}

/// The outward unit normal of a face.
pub open spec fn face_normal(face: Face) -> (i32, i32, i32) {
    match face {
        Face::Up => (0, 1, 0),
        Face::Down => (0, -1i32, 0),
        Face::Right => (1, 0, 0),
        Face::Left => (-1i32, 0, 0),
        Face::Front => (0, 0, 1),
        Face::Back => (0, 0, -1i32),
    }
}

impl Face {
    /// The outward unit normal of this face.
    pub fn normal(self) -> (n: (i32, i32, i32))
        ensures
            n == face_normal(self),
    {
        match self {
            Face::Up => (0, 1, 0),
            Face::Down => (0, -1, 0),
            Face::Right => (1, 0, 0),
            Face::Left => (-1, 0, 0),
            Face::Front => (0, 0, 1),
            Face::Back => (0, 0, -1),
        }
    }
}

impl Quad {
    /// Corner `k` of the quad; see [`quad_corner`].
    pub fn corner(&self, k: usize) -> (c: (u32, u32, u32))
        requires
            quad_wf(*self),
            k < 4,
        ensures
            c == quad_corner(*self, k as int),
    {
        let r = self.rect;
        let a0 = r.a as u32;
        let a1 = (r.a + r.width) as u32;
        let b0 = r.b as u32;
        let b1 = (r.b + r.height) as u32;
        let low = self.layer as u32;
        let high = (self.layer + 1) as u32;
        match self.face {
            Face::Up => if k == 0 {
                (a0, high, b0)
            } else if k == 1 {
                (a0, high, b1)
            } else if k == 2 {
                (a1, high, b1)
            } else {
                (a1, high, b0)
            },
            Face::Down => if k == 0 {
                (a0, low, b1)
            } else if k == 1 {
                (a0, low, b0)
            } else if k == 2 {
                (a1, low, b0)
            } else {
                (a1, low, b1)
            },
            Face::Right => if k == 0 {
                (high, a0, b0)
            } else if k == 1 {
                (high, a1, b0)
            } else if k == 2 {
                (high, a1, b1)
            } else {
                (high, a0, b1)
            },
            Face::Left => if k == 0 {
                (low, a0, b1)
            } else if k == 1 {
                (low, a1, b1)
            } else if k == 2 {
                (low, a1, b0)
            } else {
                (low, a0, b0)
            },
            Face::Front => if k == 0 {
                (a0, b0, high)
            } else if k == 1 {
                (a1, b0, high)
            } else if k == 2 {
                (a1, b1, high)
            } else {
                (a0, b1, high)
            },
            Face::Back => if k == 0 {
                (a1, b0, low)
            } else if k == 1 {
                (a0, b0, low)
            } else if k == 2 {
                (a0, b1, low)
            } else {
                (a1, b1, low)
            },
        }
    }
}

/// Most quads a mesh can hold: each quad has four vertices, numbered by
/// `u32` indices, so `4 * MAX_QUADS` vertices exactly fill the `u32` index
/// range. (A whole chunk needs far fewer: five face directions, 32 layers
/// each, four drawable block types, at most `32 * 32` rectangles per layer
/// and type.)
pub const MAX_QUADS: usize = 0x4000_0000;

/// Vertex and index buffers of a chunk mesh under construction, in
/// chunk-local block units: four vertices and two triangles per quad.
pub struct MeshBuilder {
    pub positions: Vec<(u32, u32, u32)>,
    pub normals: Vec<(i32, i32, i32)>,
    /// The block type each vertex is colored as.
    pub blocks: Vec<BlockId>,
    pub indices: Vec<u32>,
    /// The quads the buffers were built from.
    pub quads: Ghost<Seq<Quad>>,
}

impl MeshBuilder {
    /// The quads pushed so far, in order.
    pub open spec fn quads(&self) -> Seq<Quad> {
        self.quads@
    }

    /// Vertex `4 * i + k` holds corner `k` of quad `i`, its face's normal and
    /// its block.
    pub open spec fn vertex_ok(&self, i: int, k: int) -> bool {
        let q = self.quads()[i];
        &&& self.positions@[4 * i + k] == quad_corner(q, k)
        &&& self.normals@[4 * i + k] == face_normal(q.face)
        &&& self.blocks@[4 * i + k] == q.block
    }

    /// Indices `6 * i..6 * i + 6` are the two triangles of quad `i`:
    /// `(4i, 4i+1, 4i+2)` and `(4i, 4i+2, 4i+3)`.
    pub open spec fn triangles_ok(&self, i: int) -> bool {
        &&& self.indices@[6 * i] == 4 * i
        &&& self.indices@[6 * i + 1] == 4 * i + 1
        &&& self.indices@[6 * i + 2] == 4 * i + 2
        &&& self.indices@[6 * i + 3] == 4 * i
        &&& self.indices@[6 * i + 4] == 4 * i + 2
        &&& self.indices@[6 * i + 5] == 4 * i + 3
    }

    /// The buffers hold exactly the pushed quads: quad `i` owns vertices
    /// `4i..4i + 4` and indices `6i..6i + 6`.
    pub open spec fn wf(&self) -> bool {
        let q = self.quads();
        &&& q.len() <= MAX_QUADS
        &&& self.positions@.len() == 4 * q.len()
        &&& self.normals@.len() == 4 * q.len()
        &&& self.blocks@.len() == 4 * q.len()
        &&& self.indices@.len() == 6 * q.len()
        &&& forall|i: int, k: int| 0 <= i < q.len() && 0 <= k < 4 ==> #[trigger] self.vertex_ok(i, k)
        &&& forall|i: int| 0 <= i < q.len() ==> quad_wf(#[trigger] q[i])
        &&& forall|i: int| 0 <= i < q.len() ==> #[trigger] self.triangles_ok(i)
    }

    /// An empty mesh.
    pub fn new() -> (m: Self)
        ensures
            m.wf(),
            m.quads() == Seq::<Quad>::empty(),
    {
        MeshBuilder {
            positions: Vec::new(),
            normals: Vec::new(),
            blocks: Vec::new(),
            indices: Vec::new(),
            quads: Ghost(Seq::empty()),
        }
    }

    /// Appends one quad: its four corners, normal and block, and the two
    /// triangles over them. There must be room for four more vertices within
    /// the `u32` index range (fewer than [`MAX_QUADS`] quads so far).
    pub fn push_quad(&mut self, quad: Quad)
        requires
            old(self).wf(),
            quad_wf(quad),
            old(self).quads().len() < MAX_QUADS,
        ensures
            final(self).wf(),
            final(self).quads() == old(self).quads().push(quad),
    {
        let ghost q0 = self.quads@;
        let ghost p0 = self.positions@;
        let ghost n0 = self.normals@;
        let ghost b0 = self.blocks@;
        let ghost i0 = self.indices@;
        let start = self.positions.len() as u32;
        let normal = quad.face.normal();
        let c0 = quad.corner(0);
        let c1 = quad.corner(1);
        let c2 = quad.corner(2);
        let c3 = quad.corner(3);
        self.positions.push(c0);
        self.positions.push(c1);
        self.positions.push(c2);
        self.positions.push(c3);
        self.normals.push(normal);
        self.normals.push(normal);
        self.normals.push(normal);
        self.normals.push(normal);
        self.blocks.push(quad.block);
        self.blocks.push(quad.block);
        self.blocks.push(quad.block);
        self.blocks.push(quad.block);
        self.indices.push(start);
        self.indices.push(start + 1);
        self.indices.push(start + 2);
        self.indices.push(start);
        self.indices.push(start + 2);
        self.indices.push(start + 3);
        self.quads = Ghost(q0.push(quad));
        proof {
            assert(self.positions@ =~= p0 + seq![c0, c1, c2, c3]);
            assert(self.normals@ =~= n0 + seq![normal, normal, normal, normal]);
            assert(self.blocks@ =~= b0 + seq![quad.block, quad.block, quad.block, quad.block]);
            assert(self.indices@ =~= i0 + seq![
                start,
                (start + 1) as u32,
                (start + 2) as u32,
                start,
                (start + 2) as u32,
                (start + 3) as u32,
            ]);
            let q = self.quads@;
            let last = q0.len() as int;
            assert forall|i: int, k: int| 0 <= i < q.len() && 0 <= k < 4 implies #[trigger] self.vertex_ok(i, k) by {
                if i < last {
                    assert(self.positions@[4 * i + k] == p0[4 * i + k]);
                    assert(self.normals@[4 * i + k] == n0[4 * i + k]);
                    assert(self.blocks@[4 * i + k] == b0[4 * i + k]);
                    assert(q[i] == q0[i]);
                    assert(old(self).vertex_ok(i, k));
                }
            }
            assert forall|i: int| 0 <= i < q.len() implies #[trigger] self.triangles_ok(i) by {
                if i < last {
                    assert(i0.len() == 6 * last);
                    assert(old(self).triangles_ok(i));
                }
            }
            assert forall|i: int| 0 <= i < q.len() implies quad_wf(#[trigger] q[i]) by {
                if i < last {
                    assert(q[i] == q0[i]);
                }
            }
            assert(self.wf());
        }
    }

    /// Whether the mesh has any triangles at all.
    pub fn has_geometry(&self) -> (r: bool)
        requires
            self.wf(),
        ensures
            r == (self.quads().len() > 0),
    {
        self.indices.len() > 0
    }
}

/// `q` is one of layer `layer`'s `face` quads, of a drawable block type,
/// covering only cells set in that block type's mask.
pub open spec fn quad_from_masks(q: Quad, masks: Seq<[u32; 32]>, face: Face, layer: int) -> bool {
    &&& q.face == face
    &&& q.layer == layer
    &&& 1 <= q.block < BLOCK_TYPE_COUNT
    &&& q.rect.wf()
    &&& forall|a: int, b: int| #[trigger] q.rect.covers(a, b) ==> mask_cell(masks[q.block as int]@, a, b)
}

/// Rank of a face direction in the order a chunk is meshed: up, (down),
/// right, left, front, back.
pub open spec fn face_rank(f: Face) -> int {
    match f {
        Face::Up => 0,
        Face::Down => 1,
        Face::Right => 2,
        Face::Left => 3,
        Face::Front => 4,
        Face::Back => 5,
    }
}

/// Where the quads of layer `l` of face `f` come in a chunk mesh: by face
/// direction, then by layer.
pub open spec fn slot(f: Face, l: int) -> int {
    face_rank(f) * 32 + l
}

/// Whether quad `p` may come before quad `q`: an earlier slot, or the same
/// slot and a block type no greater.
pub open spec fn quad_before(p: Quad, q: Quad) -> bool {
    slot(p.face, p.layer as int) < slot(q.face, q.layer as int) || (slot(p.face, p.layer as int)
        == slot(q.face, q.layer as int) && p.block <= q.block)
}

/// Whether quad `q` is in the `(f, l, blk)` group: face `f`, layer `l`,
/// block type `blk`.
pub open spec fn in_group(q: Quad, f: Face, l: int, blk: int) -> bool {
    q.face == f && q.layer == l && q.block == blk
}

/// Membership in the `(f, l, blk)` group, as a predicate.
pub open spec fn group_pred(f: Face, l: int, blk: int) -> spec_fn(Quad) -> bool {
    |q: Quad| in_group(q, f, l, blk)
}

/// The rectangles of the quads of `qs` in the `(f, l, blk)` group, in order.
pub open spec fn group_rects(qs: Seq<Quad>, f: Face, l: int, blk: int) -> Seq<MergedRect> {
    qs.filter(group_pred(f, l, blk)).map_values(|q: Quad| q.rect)
}

/// The cells `(a, b)` of layer `l` of face `f` that are visible faces of
/// blocks of type `blk`.
pub open spec fn layer_cells(data: ChunkData, f: Face, l: int, blk: int) -> spec_fn(int, int) -> bool {
    |a: int, b: int|
        {
            &&& 0 <= a < 32
            &&& 0 <= b < 32
            &&& face_visible(data, f, cell_x(f, l, a, b), cell_y(f, l, a, b), cell_z(f, l, a, b))
            &&& data.local(cell_x(f, l, a, b), cell_y(f, l, a, b), cell_z(f, l, a, b)) == blk
        }
}

/// A group of a concatenation is the group of each part, in order.
proof fn lemma_group_add(s: Seq<Quad>, t: Seq<Quad>, f: Face, l: int, blk: int)
    ensures
        group_rects(s + t, f, l, blk) == group_rects(s, f, l, blk) + group_rects(t, f, l, blk),
{
    Seq::<Quad>::filter_distributes_over_add(s, t, group_pred(f, l, blk));
    assert(group_rects(s + t, f, l, blk) =~= group_rects(s, f, l, blk) + group_rects(t, f, l, blk));
}

/// A sequence with no quad of a group has an empty group.
proof fn lemma_group_empty(s: Seq<Quad>, f: Face, l: int, blk: int)
    requires
        forall|i: int| 0 <= i < s.len() ==> !in_group(#[trigger] s[i], f, l, blk),
    ensures
        group_rects(s, f, l, blk) == Seq::<MergedRect>::empty(),
{
    let p = group_pred(f, l, blk);
    assert forall|i: int| 0 <= i < s.len() implies !p(#[trigger] s[i]) by {}
    assert(s.all(|x: Quad| !p(x)));
    s.lemma_all_neg_filter_empty(p);
    assert(group_rects(s, f, l, blk) =~= Seq::<MergedRect>::empty());
}

/// Pushing a quad grows its own group by its rectangle and leaves every
/// other group alone.
proof fn lemma_group_push(s: Seq<Quad>, q: Quad, f: Face, l: int, blk: int)
    ensures
        group_rects(s.push(q), f, l, blk) == if in_group(q, f, l, blk) {
            group_rects(s, f, l, blk).push(q.rect)
        } else {
            group_rects(s, f, l, blk)
        },
{
    s.lemma_filter_push(q, group_pred(f, l, blk));
    if in_group(q, f, l, blk) {
        assert(group_rects(s.push(q), f, l, blk) =~= group_rects(s, f, l, blk).push(q.rect));
    }
}

/// The quads `new` holds past `old`'s are exactly one merge of every
/// drawable block type's mask: each comes from a mask, same-type quads never
/// overlap, and every set cell of a drawable type's mask is covered by a
/// quad of that type. `new` keeps `old` as its prefix.
pub open spec fn layer_emitted(
    old: Seq<Quad>,
    new: Seq<Quad>,
    masks: Seq<[u32; 32]>,
    face: Face,
    layer: int,
) -> bool {
    &&& old.len() <= new.len() <= old.len() + 4096
    &&& new.subrange(0, old.len() as int) == old
    &&& forall|i: int| old.len() <= i < new.len() ==> quad_from_masks(#[trigger] new[i], masks, face, layer)
    &&& forall|i: int, j: int, a: int, b: int|
        old.len() <= i < new.len() && old.len() <= j < new.len() && new[i].block == new[j].block
            && #[trigger] new[i].rect.covers(a, b) && #[trigger] new[j].rect.covers(a, b) ==> i == j
    &&& forall|blk: int, a: int, b: int|
        1 <= blk < BLOCK_TYPE_COUNT && #[trigger] mask_cell(masks[blk]@, a, b) ==> exists|i: int|
            old.len() <= i < new.len() && new[i].block == blk && #[trigger] new[i].rect.covers(a, b)
    &&& forall|blk: int|
        1 <= blk < BLOCK_TYPE_COUNT ==> #[trigger] greedy_tiling(
            group_rects(new.skip(old.len() as int), face, layer, blk),
            mask_cells(masks[blk]@),
        )
    &&& forall|i: int, j: int| old.len() <= i < j < new.len() ==> #[trigger] new[i].block <= #[trigger] new[j].block
}

/// Merges each drawable block type's mask of one layer into rectangles and
/// pushes them as `face` quads, skipping types whose mask is unused (all
/// clear). Air (type 0) is never drawn.
fn emit_layer(builder: &mut MeshBuilder, masks: &[Mask; 5], used: &[bool; 5], face: Face, layer: usize)
    requires
        old(builder).wf(),
        old(builder).quads().len() + 4096 <= MAX_QUADS,
        layer < 32,
        forall|blk: int, a: int, b: int|
            0 <= blk < BLOCK_TYPE_COUNT && !used@[blk] ==> !#[trigger] mask_cell(masks@[blk]@, a, b),
    ensures
        final(builder).wf(),
        layer_emitted(old(builder).quads(), final(builder).quads(), masks@, face, layer as int),
{
    let ghost q0 = builder.quads();
    for block in 1..BLOCK_TYPE_COUNT
        invariant
            builder.wf(),
            layer < 32,
            q0.len() + 4096 <= MAX_QUADS,
            q0.len() <= builder.quads().len() <= q0.len() + 1024 * (block - 1),
            builder.quads().subrange(0, q0.len() as int) == q0,
            forall|blk: int, a: int, b: int|
                0 <= blk < BLOCK_TYPE_COUNT && !used@[blk] ==> !#[trigger] mask_cell(
                    masks@[blk]@,
                    a,
                    b,
                ),
            forall|i: int|
                q0.len() <= i < builder.quads().len() ==> quad_from_masks(
                    #[trigger] builder.quads()[i],
                    masks@,
                    face,
                    layer as int,
                ) && builder.quads()[i].block < block,
            forall|i: int, j: int, a: int, b: int|
                q0.len() <= i < builder.quads().len() && q0.len() <= j < builder.quads().len()
                    && builder.quads()[i].block == builder.quads()[j].block
                    && #[trigger] builder.quads()[i].rect.covers(a, b)
                    && #[trigger] builder.quads()[j].rect.covers(a, b) ==> i == j,
            forall|blk: int, a: int, b: int|
                1 <= blk < block && #[trigger] mask_cell(masks@[blk]@, a, b) ==> exists|i: int|
                    q0.len() <= i < builder.quads().len() && builder.quads()[i].block == blk
                        && #[trigger] builder.quads()[i].rect.covers(a, b),
            forall|b2: int|
                1 <= b2 < block ==> #[trigger] greedy_tiling(
                    group_rects(builder.quads().skip(q0.len() as int), face, layer as int, b2),
                    mask_cells(masks@[b2]@),
                ),
            forall|i: int, j: int|
                q0.len() <= i < j < builder.quads().len() ==> #[trigger] builder.quads()[i].block
                    <= #[trigger] builder.quads()[j].block,
    {
        proof {
            let tail = builder.quads().skip(q0.len() as int);
            assert forall|i: int| 0 <= i < tail.len() implies !in_group(
                #[trigger] tail[i],
                face,
                layer as int,
                block as int,
            ) by {
                assert(tail[i] == builder.quads()[q0.len() + i]);
            }
            lemma_group_empty(tail, face, layer as int, block as int);
        }
        if used[block] {
            let rects = greedy_merge(masks[block]);
            let ghost base = builder.quads().len();
            let ghost mask_b = masks@[block as int]@;
            proof {
                assert(rects@.take(0) =~= Seq::<MergedRect>::empty());
            }
            for k in 0..rects.len()
                invariant
                    builder.wf(),
                    layer < 32,
                    1 <= block < BLOCK_TYPE_COUNT,
                    mask_b == masks@[block as int]@,
                    tiles(rects@, mask_b),
                    rects@.len() <= 1024,
                    q0.len() + 4096 <= MAX_QUADS,
                    q0.len() <= base <= q0.len() + 1024 * (block - 1),
                    builder.quads().len() == base + k,
                    builder.quads().subrange(0, q0.len() as int) == q0,
                    forall|i: int|
                        q0.len() <= i < builder.quads().len() ==> quad_from_masks(
                            #[trigger] builder.quads()[i],
                            masks@,
                            face,
                            layer as int,
                        ) && builder.quads()[i].block <= block,
                    forall|i: int| base <= i < builder.quads().len() ==> #[trigger] builder.quads()[i] == (Quad {
                        face,
                        layer,
                        rect: rects@[i - base],
                        block: block as u8,
                    }),
                    forall|i: int| q0.len() <= i < base ==> #[trigger] builder.quads()[i].block < block,
                    forall|i: int, j: int, a: int, b: int|
                        q0.len() <= i < base && q0.len() <= j < base
                            && builder.quads()[i].block == builder.quads()[j].block
                            && #[trigger] builder.quads()[i].rect.covers(a, b)
                            && #[trigger] builder.quads()[j].rect.covers(a, b) ==> i == j,
                    forall|blk: int, a: int, b: int|
                        1 <= blk < block && #[trigger] mask_cell(masks@[blk]@, a, b) ==> exists|i: int|
                            q0.len() <= i < base && builder.quads()[i].block == blk
                                && #[trigger] builder.quads()[i].rect.covers(a, b),
                    greedy_tiling(rects@, mask_cells(mask_b)),
                    forall|b2: int|
                        1 <= b2 < block ==> #[trigger] greedy_tiling(
                            group_rects(builder.quads().skip(q0.len() as int), face, layer as int, b2),
                            mask_cells(masks@[b2]@),
                        ),
                    group_rects(builder.quads().skip(q0.len() as int), face, layer as int, block as int)
                        == rects@.take(k as int),
                    forall|i: int, j: int|
                        q0.len() <= i < j < builder.quads().len() ==> #[trigger] builder.quads()[i].block
                            <= #[trigger] builder.quads()[j].block,
            {
                let ghost before = builder.quads();
                let r = rects[k];
                builder.push_quad(Quad { face, layer, rect: r, block: block as u8 });
                proof {
                    let now = builder.quads();
                    let quad = Quad { face, layer, rect: r, block: block as u8 };
                    assert(now.skip(q0.len() as int) =~= before.skip(q0.len() as int).push(quad));
                    assert forall|b2: int| 1 <= b2 < block implies #[trigger] greedy_tiling(
                        group_rects(now.skip(q0.len() as int), face, layer as int, b2),
                        mask_cells(masks@[b2]@),
                    ) by {
                        lemma_group_push(before.skip(q0.len() as int), quad, face, layer as int, b2);
                    }
                    lemma_group_push(before.skip(q0.len() as int), quad, face, layer as int, block as int);
                    assert(rects@.take(k + 1) =~= rects@.take(k as int).push(r));
                    assert forall|i: int, j: int|
                        q0.len() <= i < j < now.len() implies #[trigger] now[i].block <= #[trigger] now[j].block by {
                        assert(now[i] == before.push(quad)[i]);
                        assert(now[j] == before.push(quad)[j]);
                        if j < before.len() {
                        } else if i >= base {
                            assert(now[i] == (Quad { face, layer, rect: rects@[i - base], block: block as u8 }));
                        } else {
                            assert(before[i].block < block);
                        }
                    }
                    assert forall|i: int| 0 <= i < before.len() implies now[i] == before[i] by {
                        assert(now[i] == before.push(Quad { face, layer, rect: r, block: block as u8 })[i]);
                    }
                    assert(now.subrange(0, q0.len() as int) =~= q0) by {
                        assert forall|i: int| 0 <= i < q0.len() implies now[i] == q0[i] by {
                            assert(before.subrange(0, q0.len() as int)[i] == q0[i]);
                        }
                    }
                    assert forall|i: int|
                        q0.len() <= i < now.len() implies quad_from_masks(
                        #[trigger] now[i],
                        masks@,
                        face,
                        layer as int,
                    ) && now[i].block <= block by {
                        if i < before.len() {
                            assert(now[i] == before[i]);
                        } else {
                            assert(rects@[k as int] == r);
                            assert forall|a: int, b: int| #[trigger] r.covers(a, b) implies mask_cell(
                                masks@[block as int]@,
                                a,
                                b,
                            ) by {
                                assert(rects@[k as int].covers(a, b));
                            }
                        }
                    }
                    assert forall|i: int| base <= i < now.len() implies #[trigger] now[i] == (Quad {
                        face,
                        layer,
                        rect: rects@[i - base],
                        block: block as u8,
                    }) by {
                        if i < before.len() {
                            assert(now[i] == before[i]);
                        }
                    }
                    assert forall|i: int| q0.len() <= i < base implies #[trigger] now[i].block < block by {
                        assert(now[i] == before[i]);
                    }
                    assert forall|i: int, j: int, a: int, b: int|
                        q0.len() <= i < base && q0.len() <= j < base && now[i].block == now[j].block
                            && #[trigger] now[i].rect.covers(a, b) && #[trigger] now[j].rect.covers(
                            a,
                            b,
                        ) implies i == j by {
                        assert(now[i] == before[i]);
                        assert(now[j] == before[j]);
                    }
                    assert forall|blk: int, a: int, b: int|
                        1 <= blk < block && #[trigger] mask_cell(masks@[blk]@, a, b) implies exists|
                        i: int,
                    |
                        q0.len() <= i < base && now[i].block == blk && #[trigger] now[i].rect.covers(
                            a,
                            b,
                        ) by {
                        let i = choose|i: int|
                            q0.len() <= i < base && before[i].block == blk
                                && #[trigger] before[i].rect.covers(a, b);
                        assert(now[i] == before[i]);
                    }
                }
            }
            proof {
                assert(rects@.take(rects@.len() as int) =~= rects@);
            }
            proof {
                let now = builder.quads();
                assert forall|i: int, j: int, a: int, b: int|
                    q0.len() <= i < now.len() && q0.len() <= j < now.len() && now[i].block == now[j].block
                        && #[trigger] now[i].rect.covers(a, b) && #[trigger] now[j].rect.covers(
                        a,
                        b,
                    ) implies i == j by {
                    if i >= base && j >= base {
                        assert(now[i].rect == rects@[i - base]);
                        assert(now[j].rect == rects@[j - base]);
                        assert(rects@[i - base].covers(a, b));
                        assert(rects@[j - base].covers(a, b));
                    } else if i >= base {
                        assert(now[j].block < block);
                    } else if j >= base {
                        assert(now[i].block < block);
                    }
                }
                assert forall|blk: int, a: int, b: int|
                    1 <= blk < block + 1 && #[trigger] mask_cell(masks@[blk]@, a, b) implies exists|
                    i: int,
                |
                    q0.len() <= i < now.len() && now[i].block == blk && #[trigger] now[i].rect.covers(
                        a,
                        b,
                    ) by {
                    if blk == block {
                        assert(covered(rects@, a, b));
                        let k = choose|k: int| 0 <= k < rects@.len() && #[trigger] rects@[k].covers(a, b);
                        assert(now[base + k] == (Quad { face, layer, rect: rects@[k], block: block as u8 }));
                        assert(now[base + k].rect.covers(a, b));
                    } else {
                        let i = choose|i: int|
                            q0.len() <= i < base && now[i].block == blk
                                && #[trigger] now[i].rect.covers(a, b);
                        assert(now[i].rect.covers(a, b));
                    }
                }
                assert forall|i: int| q0.len() <= i < now.len() implies quad_from_masks(
                    #[trigger] now[i],
                    masks@,
                    face,
                    layer as int,
                ) && now[i].block < block + 1 by {
                }
            }
        } else {
            proof {
                reveal(greedy_tiling);
                assert forall|a: int, b: int| !#[trigger] mask_cells(masks@[block as int]@)(a, b) by {
                    assert(!mask_cell(masks@[block as int]@, a, b));
                }
                assert(greedy_tiling(
                    group_rects(builder.quads().skip(q0.len() as int), face, layer as int, block as int),
                    mask_cells(masks@[block as int]@),
                ));
            }
            proof {
                let now = builder.quads();
                assert forall|blk: int, a: int, b: int|
                    1 <= blk < block + 1 && #[trigger] mask_cell(masks@[blk]@, a, b) implies exists|
                    i: int,
                |
                    q0.len() <= i < now.len() && now[i].block == blk && #[trigger] now[i].rect.covers(
                        a,
                        b,
                    ) by {
                    if blk < block {
                        let i = choose|i: int|
                            q0.len() <= i < now.len() && now[i].block == blk
                                && #[trigger] now[i].rect.covers(a, b);
                        assert(now[i].rect.covers(a, b));
                    }
                }
            }
        }
    }
    proof {
        let now = builder.quads();
        assert forall|i: int| q0.len() <= i < now.len() implies quad_from_masks(
            #[trigger] now[i],
            masks@,
            face,
            layer as int,
        ) by {
        }
    }
}

/// Whether local block `(x, y, z)` lies in the chunk.
pub open spec fn in_chunk(x: int, y: int, z: int) -> bool {
    0 <= x < 32 && 0 <= y < 32 && 0 <= z < 32
}

/// Whether the `face` face of local block `(x, y, z)` is visible: the block
/// is opaque and its neighbour across that face (read from the padding at
/// the chunk's edge) is not. Nothing lies below the chunk's bottom layer.
pub open spec fn face_visible(data: ChunkData, face: Face, x: int, y: int, z: int) -> bool {
    opaque(data.local(x, y, z)) && match face {
        Face::Up => !opaque(data.padded(x + 1, y + 1, z + 1)),
        Face::Down => y == 0 || !opaque(data.padded(x + 1, y - 1, z + 1)),
        Face::Right => !opaque(data.padded(x + 2, y, z + 1)),
        Face::Left => !opaque(data.padded(x, y, z + 1)),
        Face::Front => !opaque(data.padded(x + 1, y, z + 2)),
        Face::Back => !opaque(data.padded(x + 1, y, z)),
    }
}

/// Local block coordinates of cell `(a, b)` of layer `layer` of `face`.
pub open spec fn cell_x(face: Face, layer: int, a: int, b: int) -> int {
    match face {
        Face::Up | Face::Down => a,
        Face::Right | Face::Left => layer,
        Face::Front | Face::Back => a,
    }
}

pub open spec fn cell_y(face: Face, layer: int, a: int, b: int) -> int {
    match face {
        Face::Up | Face::Down => layer,
        Face::Right | Face::Left => a,
        Face::Front | Face::Back => b,
    }
}

pub open spec fn cell_z(face: Face, layer: int, a: int, b: int) -> int {
    match face {
        Face::Up | Face::Down => b,
        Face::Right | Face::Left => b,
        Face::Front | Face::Back => layer,
    }
}

/// The masks of layer `layer` of `face` hold, for each block type, exactly
/// the visible faces of blocks of that type.
pub open spec fn layer_masks(data: ChunkData, masks: Seq<[u32; 32]>, face: Face, layer: int) -> bool {
    forall|blk: int, a: int, b: int|
        0 <= blk < BLOCK_TYPE_COUNT ==> (#[trigger] mask_cell(masks[blk]@, a, b) <==> {
            &&& 0 <= a < 32
            &&& 0 <= b < 32
            &&& face_visible(
                data,
                face,
                cell_x(face, layer, a, b),
                cell_y(face, layer, a, b),
                cell_z(face, layer, a, b),
            )
            &&& data.local(
                cell_x(face, layer, a, b),
                cell_y(face, layer, a, b),
                cell_z(face, layer, a, b),
            ) == blk
        })
}

/// The quads `cur` holds past `start` draw exactly the visible faces of the
/// `(face, layer)` pairs `done` selects: each is a valid quad of a selected
/// pair, covers only visible faces of blocks of its own type, no two quads
/// of one face direction overlap, and every visible face of a selected pair
/// is drawn. `cur` keeps `start` as its prefix.
pub open spec fn meshed(
    data: ChunkData,
    start: Seq<Quad>,
    cur: Seq<Quad>,
    done: spec_fn(Face, int) -> bool,
) -> bool {
    &&& start.len() <= cur.len()
    &&& cur.subrange(0, start.len() as int) == start
    &&& forall|i: int|
        start.len() <= i < cur.len() ==> quad_wf(#[trigger] cur[i]) && done(
            cur[i].face,
            cur[i].layer as int,
        )
    &&& forall|i: int, x: int, y: int, z: int|
        start.len() <= i < cur.len() && #[trigger] quad_covers(cur[i], x, y, z) ==> face_visible(
            data,
            cur[i].face,
            x,
            y,
            z,
        ) && data.local(x, y, z) == cur[i].block
    &&& forall|i: int, j: int, x: int, y: int, z: int|
        start.len() <= i < cur.len() && start.len() <= j < cur.len() && cur[i].face == cur[j].face
            && #[trigger] quad_covers(cur[i], x, y, z) && #[trigger] quad_covers(cur[j], x, y, z)
            ==> i == j
    &&& forall|f: Face, x: int, y: int, z: int|
        in_chunk(x, y, z) && done(f, layer_of(f, x, y, z)) && #[trigger] face_visible(
            data,
            f,
            x,
            y,
            z,
        ) ==> exists|i: int|
            start.len() <= i < cur.len() && cur[i].face == f && #[trigger] quad_covers(
                cur[i],
                x,
                y,
                z,
            )
    &&& forall|f: Face, l: int, blk: int|
        done(f, l) && 1 <= blk < BLOCK_TYPE_COUNT ==> #[trigger] greedy_tiling(
            group_rects(cur.skip(start.len() as int), f, l, blk),
            layer_cells(data, f, l, blk),
        )
    &&& forall|i: int, j: int| start.len() <= i < j < cur.len() ==> #[trigger] quad_before(cur[i], cur[j])
}

/// Nothing selected, nothing drawn.
proof fn lemma_meshed_empty(data: ChunkData, start: Seq<Quad>, done: spec_fn(Face, int) -> bool)
    requires
        forall|f: Face, l: int| !#[trigger] done(f, l),
    ensures
        meshed(data, start, start, done),
{
    assert(start.subrange(0, start.len() as int) =~= start);
}

/// Meshing one more layer of one face, whose masks hold its visible faces,
/// extends what is meshed by that `(face, layer)` pair.
proof fn lemma_meshed_layer(
    data: ChunkData,
    start: Seq<Quad>,
    mid: Seq<Quad>,
    cur: Seq<Quad>,
    masks: Seq<[u32; 32]>,
    face: Face,
    layer: int,
    done: spec_fn(Face, int) -> bool,
    done2: spec_fn(Face, int) -> bool,
)
    requires
        data.wf(),
        data.known_blocks(),
        0 <= layer < 32,
        meshed(data, start, mid, done),
        layer_emitted(mid, cur, masks, face, layer),
        layer_masks(data, masks, face, layer),
        !done(face, layer),
        forall|f: Face, l: int| #[trigger] done(f, l) ==> slot(f, l) < slot(face, layer),
        forall|f: Face, l: int| #[trigger] done2(f, l) == (done(f, l) || (f == face && l == layer)),
    ensures
        meshed(data, start, cur, done2),
{
    assert(cur.subrange(0, start.len() as int) =~= start) by {
        assert forall|i: int| 0 <= i < start.len() implies cur[i] == start[i] by {
            assert(cur.subrange(0, mid.len() as int)[i] == mid[i]);
            assert(mid.subrange(0, start.len() as int)[i] == start[i]);
        }
    }
    assert forall|i: int| start.len() <= i < cur.len() implies quad_wf(#[trigger] cur[i]) && done2(
        cur[i].face,
        cur[i].layer as int,
    ) by {
        if i < mid.len() {
            assert(cur[i] == cur.subrange(0, mid.len() as int)[i]);
        } else {
            assert(quad_from_masks(cur[i], masks, face, layer));
        }
    }
    assert forall|i: int, x: int, y: int, z: int|
        start.len() <= i < cur.len() && #[trigger] quad_covers(cur[i], x, y, z) implies face_visible(
        data,
        cur[i].face,
        x,
        y,
        z,
    ) && data.local(x, y, z) == cur[i].block by {
        if i < mid.len() {
            assert(cur[i] == cur.subrange(0, mid.len() as int)[i]);
        } else {
            let q = cur[i];
            assert(quad_from_masks(q, masks, face, layer));
            let a = a_of(face, x, y, z);
            let b = b_of(face, x, y, z);
            assert(q.rect.covers(a, b));
            assert(mask_cell(masks[q.block as int]@, a, b));
            assert(cell_x(face, layer, a, b) == x);
            assert(cell_y(face, layer, a, b) == y);
            assert(cell_z(face, layer, a, b) == z);
        }
    }
    assert forall|i: int, j: int, x: int, y: int, z: int|
        start.len() <= i < cur.len() && start.len() <= j < cur.len() && cur[i].face == cur[j].face
            && #[trigger] quad_covers(cur[i], x, y, z) && #[trigger] quad_covers(
            cur[j],
            x,
            y,
            z,
        ) implies i == j by {
        if i < mid.len() {
            assert(cur[i] == cur.subrange(0, mid.len() as int)[i]);
        }
        if j < mid.len() {
            assert(cur[j] == cur.subrange(0, mid.len() as int)[j]);
        }
        if i >= mid.len() && j >= mid.len() {
            assert(quad_from_masks(cur[i], masks, face, layer));
            assert(quad_from_masks(cur[j], masks, face, layer));
            let a = a_of(face, x, y, z);
            let b = b_of(face, x, y, z);
            assert(cur[i].rect.covers(a, b));
            assert(cur[j].rect.covers(a, b));
            assert(mask_cell(masks[cur[i].block as int]@, a, b));
            assert(mask_cell(masks[cur[j].block as int]@, a, b));
            assert(cell_x(face, layer, a, b) == x);
            assert(cell_y(face, layer, a, b) == y);
            assert(cell_z(face, layer, a, b) == z);
        } else if i >= mid.len() {
            assert(quad_from_masks(cur[i], masks, face, layer));
            assert(done(cur[j].face, cur[j].layer as int));
        } else if j >= mid.len() {
            assert(quad_from_masks(cur[j], masks, face, layer));
            assert(done(cur[i].face, cur[i].layer as int));
        }
    }
    assert forall|f: Face, x: int, y: int, z: int|
        in_chunk(x, y, z) && done2(f, layer_of(f, x, y, z)) && #[trigger] face_visible(
            data,
            f,
            x,
            y,
            z,
        ) implies exists|i: int|
        start.len() <= i < cur.len() && cur[i].face == f && #[trigger] quad_covers(cur[i], x, y, z) by {
        if done(f, layer_of(f, x, y, z)) {
            let i = choose|i: int|
                start.len() <= i < mid.len() && mid[i].face == f && #[trigger] quad_covers(
                    mid[i],
                    x,
                    y,
                    z,
                );
            assert(cur[i] == cur.subrange(0, mid.len() as int)[i]);
            assert(quad_covers(cur[i], x, y, z));
        } else {
            let a = a_of(f, x, y, z);
            let b = b_of(f, x, y, z);
            let blk = data.local(x, y, z) as int;
            assert(cell_x(f, layer, a, b) == x);
            assert(cell_y(f, layer, a, b) == y);
            assert(cell_z(f, layer, a, b) == z);
            assert(opaque(data.local(x, y, z)));
            assert(data@[padded_index(x + 1, y, z + 1)] < BLOCK_TYPE_COUNT);
            assert(mask_cell(masks[blk]@, a, b));
            let i = choose|i: int|
                mid.len() <= i < cur.len() && cur[i].block == blk && #[trigger] cur[i].rect.covers(
                    a,
                    b,
                );
            assert(quad_from_masks(cur[i], masks, face, layer));
            assert(quad_covers(cur[i], x, y, z));
        }
    }
    assert forall|i: int, j: int| start.len() <= i < j < cur.len() implies #[trigger] quad_before(
        cur[i],
        cur[j],
    ) by {
        if j < mid.len() {
            assert(cur[i] == cur.subrange(0, mid.len() as int)[i]);
            assert(cur[j] == cur.subrange(0, mid.len() as int)[j]);
            assert(quad_before(mid[i], mid[j]));
        } else if i >= mid.len() {
            assert(quad_from_masks(cur[i], masks, face, layer));
            assert(quad_from_masks(cur[j], masks, face, layer));
        } else {
            assert(cur[i] == cur.subrange(0, mid.len() as int)[i]);
            assert(done(mid[i].face, mid[i].layer as int));
            assert(quad_from_masks(cur[j], masks, face, layer));
        }
    }
    let s = start.len() as int;
    assert(cur.skip(s) =~= mid.skip(s) + cur.skip(mid.len() as int));
    assert forall|f: Face, l: int, blk: int|
        done2(f, l) && 1 <= blk < BLOCK_TYPE_COUNT implies #[trigger] greedy_tiling(
        group_rects(cur.skip(s), f, l, blk),
        layer_cells(data, f, l, blk),
    ) by {
        let old_part = mid.skip(s);
        let new_part = cur.skip(mid.len() as int);
        lemma_group_add(old_part, new_part, f, l, blk);
        if f == face && l == layer {
            assert forall|i: int| 0 <= i < old_part.len() implies !in_group(
                #[trigger] old_part[i],
                f,
                l,
                blk,
            ) by {
                assert(old_part[i] == mid[s + i]);
                assert(done(mid[s + i].face, mid[s + i].layer as int));
            }
            lemma_group_empty(old_part, f, l, blk);
            assert(group_rects(cur.skip(s), f, l, blk) =~= group_rects(new_part, f, l, blk));
            assert forall|a: int, b: int| #[trigger] mask_cells(masks[blk]@)(a, b) == layer_cells(
                data,
                f,
                l,
                blk,
            )(a, b) by {
                assert(mask_cell(masks[blk]@, a, b) == layer_cells(data, f, l, blk)(a, b));
            }
            assert(mask_cells(masks[blk]@) =~= layer_cells(data, f, l, blk));
        } else {
            assert forall|i: int| 0 <= i < new_part.len() implies !in_group(
                #[trigger] new_part[i],
                f,
                l,
                blk,
            ) by {
                assert(new_part[i] == cur[mid.len() + i]);
                assert(quad_from_masks(cur[mid.len() + i], masks, face, layer));
            }
            lemma_group_empty(new_part, f, l, blk);
            assert(group_rects(cur.skip(s), f, l, blk) =~= group_rects(old_part, f, l, blk));
        }
    }
}

/// Position of column `(p, q)` in a `32 * 32` column array.
pub open spec fn col_index(p: int, q: int) -> int {
    p * 32 + q
}

/// Whether any block type of a layer has a face in it.
fn any_used(used: &[bool; 5]) -> (r: bool)
    ensures
        r == exists|blk: int| 0 <= blk < BLOCK_TYPE_COUNT && #[trigger] used@[blk],
{
    let mut i: usize = 0;
    while i < BLOCK_TYPE_COUNT
        invariant
            0 <= i <= BLOCK_TYPE_COUNT,
            forall|blk: int| 0 <= blk < i ==> !#[trigger] used@[blk],
        decreases BLOCK_TYPE_COUNT - i,
    {
        if used[i] {
            return true;
        }
        i += 1;
    }
    false
}

/// With every mask clear, a layer emits nothing and that is all it needs.
proof fn lemma_nothing_emitted(cur: Seq<Quad>, masks: Seq<[u32; 32]>, face: Face, layer: int)
    requires
        forall|blk: int, a: int, b: int|
            0 <= blk < BLOCK_TYPE_COUNT ==> !#[trigger] mask_cell(masks[blk]@, a, b),
    ensures
        layer_emitted(cur, cur, masks, face, layer),
{
    assert(cur.subrange(0, cur.len() as int) =~= cur);
    assert forall|blk: int| 1 <= blk < BLOCK_TYPE_COUNT implies #[trigger] greedy_tiling(
        group_rects(cur.skip(cur.len() as int), face, layer, blk),
        mask_cells(masks[blk]@),
    ) by {
        reveal(greedy_tiling);
        lemma_group_empty(cur.skip(cur.len() as int), face, layer, blk);
        assert forall|a: int, b: int| !#[trigger] mask_cells(masks[blk]@)(a, b) by {
            assert(!mask_cell(masks[blk]@, a, b));
        }
    }
}

/// Bit offset of layer 0 within a face direction's column words: the Y
/// columns start at the chunk's own bottom layer, the X and Z columns at the
/// padding block.
pub open spec fn face_shift(face: Face) -> int {
    match face {
        Face::Up | Face::Down => 0,
        _ => 1,
    }
}

/// `faces` holds `face`'s visibility: bit `layer + face_shift(face)` of
/// column `col_index(a, b)` is set exactly when the `face` face of cell
/// `(a, b)` of that layer is visible.
pub open spec fn face_bits(data: ChunkData, faces: Seq<u64>, face: Face) -> bool {
    forall|l: int, a: int, b: int|
        0 <= l < 32 && 0 <= a < 32 && 0 <= b < 32 ==> (bit64(
            faces[col_index(a, b)],
            l + face_shift(face),
        ) <==> #[trigger] face_visible(
            data,
            face,
            cell_x(face, l, a, b),
            cell_y(face, l, a, b),
            cell_z(face, l, a, b),
        ))
}

/// Local block coordinates of cell `(a, b)` of layer `layer` of `face`.
fn cell_of(face: Face, layer: usize, a: usize, b: usize) -> (c: (usize, usize, usize))
    ensures
        c.0 == cell_x(face, layer as int, a as int, b as int),
        c.1 == cell_y(face, layer as int, a as int, b as int),
        c.2 == cell_z(face, layer as int, a as int, b as int),
{
    match face {
        Face::Up | Face::Down => (a, layer, b),
        Face::Right | Face::Left => (layer, a, b),
        Face::Front | Face::Back => (a, b, layer),
    }
}

/// Splits one layer's visible faces by block type: mask `blk` gets bit `a`
/// of row `b` for every visible face of a `blk` block at cell `(a, b)`, and
/// `used[blk]` records whether mask `blk` got any bit.
fn fill_layer_masks(data: &ChunkData, faces: &Vec<u64>, face: Face, layer: usize) -> (r: (
    [Mask; 5],
    [bool; 5],
))
    requires
        data.wf(),
        data.known_blocks(),
        faces@.len() == 1024,
        layer < 32,
        face_bits(*data, faces@, face),
    ensures
        layer_masks(*data, r.0@, face, layer as int),
        forall|blk: int, a: int, b: int|
            0 <= blk < BLOCK_TYPE_COUNT && !r.1@[blk] ==> !#[trigger] mask_cell(r.0@[blk]@, a, b),
{
    let n = CHUNK_SIZE;
    let shift: usize = match face {
        Face::Up | Face::Down => 0,
        _ => PADDING,
    };
    let mut masks: [Mask; 5] = [[0u32; 32]; 5];
    let mut used = [false; 5];
    proof {
        assert forall|blk: int, a: int, b: int|
            0 <= blk < BLOCK_TYPE_COUNT implies !#[trigger] mask_cell(masks@[blk]@, a, b) by {
            lemma_bit32_zero(a);
        }
    }
    for a in 0..n
        invariant
            n == 32,
            layer < 32,
            shift == face_shift(face),
            data.wf(),
            data.known_blocks(),
            faces@.len() == 1024,
            face_bits(*data, faces@, face),
            forall|blk: int, aa: int, b: int|
                0 <= blk < BLOCK_TYPE_COUNT && !used@[blk] ==> !#[trigger] mask_cell(
                    masks@[blk]@,
                    aa,
                    b,
                ),
            forall|blk: int, aa: int, b: int|
                0 <= blk < BLOCK_TYPE_COUNT ==> (#[trigger] mask_cell(masks@[blk]@, aa, b) <==> (0
                    <= aa < a && 0 <= b < 32 && face_visible(
                    *data,
                    face,
                    cell_x(face, layer as int, aa, b),
                    cell_y(face, layer as int, aa, b),
                    cell_z(face, layer as int, aa, b),
                ) && data.local(
                    cell_x(face, layer as int, aa, b),
                    cell_y(face, layer as int, aa, b),
                    cell_z(face, layer as int, aa, b),
                ) == blk)),
    {
        for b in 0..n
            invariant
                n == 32,
                layer < 32,
                a < 32,
                shift == face_shift(face),
                data.wf(),
                data.known_blocks(),
                faces@.len() == 1024,
                face_bits(*data, faces@, face),
                forall|blk: int, aa: int, bb: int|
                    0 <= blk < BLOCK_TYPE_COUNT && !used@[blk] ==> !#[trigger] mask_cell(
                        masks@[blk]@,
                        aa,
                        bb,
                    ),
                forall|blk: int, aa: int, bb: int|
                    0 <= blk < BLOCK_TYPE_COUNT ==> (#[trigger] mask_cell(masks@[blk]@, aa, bb)
                        <==> (((0 <= aa < a && 0 <= bb < 32) || (aa == a && 0 <= bb < b))
                        && face_visible(
                        *data,
                        face,
                        cell_x(face, layer as int, aa, bb),
                        cell_y(face, layer as int, aa, bb),
                        cell_z(face, layer as int, aa, bb),
                    ) && data.local(
                        cell_x(face, layer as int, aa, bb),
                        cell_y(face, layer as int, aa, bb),
                        cell_z(face, layer as int, aa, bb),
                    ) == blk)),
        {
            let (x, y, z) = cell_of(face, layer, a, b);
            let visible = (faces[a * n + b] >> ((layer + shift) as u64)) & 1 == 1;
            proof {
                assert(visible == face_visible(
                    *data,
                    face,
                    cell_x(face, layer as int, a as int, b as int),
                    cell_y(face, layer as int, a as int, b as int),
                    cell_z(face, layer as int, a as int, b as int),
                ));
            }
            let ghost masks0 = masks@;
            let ghost used0 = used@;
            if visible {
                let block = data.get(x, y, z) as usize;
                let new_row = masks[block][b] | (1u32 << (a as u32));
                masks[block][b] = new_row;
                used[block] = true;
                proof {
                    assert(block < BLOCK_TYPE_COUNT);
                    assert(masks@[block as int]@ == masks0[block as int]@.update(b as int, new_row));
                    assert(forall|blk: int|
                        0 <= blk < BLOCK_TYPE_COUNT && blk != block ==> masks@[blk] == masks0[blk]);
                    assert forall|blk: int, aa: int, bb: int|
                        0 <= blk < BLOCK_TYPE_COUNT && !used@[blk] implies !#[trigger] mask_cell(
                        masks@[blk]@,
                        aa,
                        bb,
                    ) by {
                        assert(masks@[blk] == masks0[blk]);
                        assert(!used0[blk]);
                    }
                    assert forall|blk: int, aa: int, bb: int|
                        0 <= blk < BLOCK_TYPE_COUNT implies (#[trigger] mask_cell(
                        masks@[blk]@,
                        aa,
                        bb,
                    ) <==> (((0 <= aa < a && 0 <= bb < 32) || (aa == a && 0 <= bb < b + 1))
                        && face_visible(
                        *data,
                        face,
                        cell_x(face, layer as int, aa, bb),
                        cell_y(face, layer as int, aa, bb),
                        cell_z(face, layer as int, aa, bb),
                    ) && data.local(
                        cell_x(face, layer as int, aa, bb),
                        cell_y(face, layer as int, aa, bb),
                        cell_z(face, layer as int, aa, bb),
                    ) == blk)) by {
                        assert(mask_cell(masks0[blk]@, aa, bb) <==> (((0 <= aa < a && 0 <= bb < 32)
                            || (aa == a && 0 <= bb < b)) && face_visible(
                            *data,
                            face,
                            cell_x(face, layer as int, aa, bb),
                            cell_y(face, layer as int, aa, bb),
                            cell_z(face, layer as int, aa, bb),
                        ) && data.local(
                            cell_x(face, layer as int, aa, bb),
                            cell_y(face, layer as int, aa, bb),
                            cell_z(face, layer as int, aa, bb),
                        ) == blk));
                        if 0 <= bb < 32 {
                            if blk == block && bb == b {
                                lemma_bit32_or(masks0[blk]@[bb], 1u32 << (a as u32), aa);
                                lemma_bit32_one_shl(a as u32, aa);
                                assert(masks@[blk]@[bb] == new_row);
                                assert(mask_cell(masks0[blk]@, aa, bb) == bit32(masks0[blk]@[bb], aa));
                                if aa != a {
                                    assert(mask_cell(masks@[blk]@, aa, bb) == mask_cell(
                                        masks0[blk]@,
                                        aa,
                                        bb,
                                    ));
                                }
                            } else if blk == block {
                                assert(masks@[blk]@[bb] == masks0[blk]@[bb]);
                            } else {
                                assert(masks@[blk] == masks0[blk]);
                            }
                        }
                    }
                }
            } else {
                proof {
                    assert forall|blk: int, aa: int, bb: int|
                        0 <= blk < BLOCK_TYPE_COUNT implies (#[trigger] mask_cell(
                        masks@[blk]@,
                        aa,
                        bb,
                    ) <==> (((0 <= aa < a && 0 <= bb < 32) || (aa == a && 0 <= bb < b + 1))
                        && face_visible(
                        *data,
                        face,
                        cell_x(face, layer as int, aa, bb),
                        cell_y(face, layer as int, aa, bb),
                        cell_z(face, layer as int, aa, bb),
                    ) && data.local(
                        cell_x(face, layer as int, aa, bb),
                        cell_y(face, layer as int, aa, bb),
                        cell_z(face, layer as int, aa, bb),
                    ) == blk)) by {
                        assert(mask_cell(masks0[blk]@, aa, bb) <==> (((0 <= aa < a && 0 <= bb < 32)
                            || (aa == a && 0 <= bb < b)) && face_visible(
                            *data,
                            face,
                            cell_x(face, layer as int, aa, bb),
                            cell_y(face, layer as int, aa, bb),
                            cell_z(face, layer as int, aa, bb),
                        ) && data.local(
                            cell_x(face, layer as int, aa, bb),
                            cell_y(face, layer as int, aa, bb),
                            cell_z(face, layer as int, aa, bb),
                        ) == blk));
                    }
                }
            }
        }
    }
    (masks, used)
}

/// Up (+Y) faces. Each `(x, z)` column's opacity, including the padding
/// layer sampled from the chunk above, is one `u64`; `column & !(column >>
/// 1)` marks every opaque block with an open block above it. Down (-Y)
/// faces are computed alongside but never drawn: terrain columns fill
/// downward with no overhangs, so an underside is never visible.
///
/// The builder needs room within [`MAX_QUADS`] (the `u32` index range)
/// for the most quads this pass can add.
pub fn mesh_axis_y(data: &ChunkData, builder: &mut MeshBuilder)
    requires
        data.wf(),
        data.known_blocks(),
        old(builder).wf(),
        old(builder).quads().len() + 131072 <= MAX_QUADS,
    ensures
        final(builder).wf(),
        final(builder).quads().len() <= old(builder).quads().len() + 131072,
        meshed(
            *data,
            old(builder).quads(),
            final(builder).quads(),
            (|f: Face, l: int| f == Face::Up && 0 <= l < 32),
        ),
{
    let n = CHUNK_SIZE;
    let mut columns: Vec<u64> = vec![0u64; n * n];
    for x in 0..n
        invariant
            n == 32,
            data.wf(),
            columns@.len() == 1024,
            forall|xx: int, zz: int, k: int|
                0 <= xx < x && 0 <= zz < 32 ==> (#[trigger] bit64(columns@[col_index(xx, zz)], k)
                    <==> (0 <= k <= 32 && opaque(data.padded(xx + 1, k, zz + 1)))),
    {
        for z in 0..n
            invariant
                n == 32,
                x < 32,
                data.wf(),
                columns@.len() == 1024,
                forall|xx: int, zz: int, k: int|
                    (0 <= xx < x && 0 <= zz < 32) || (xx == x && 0 <= zz < z) ==> (
                    #[trigger] bit64(columns@[col_index(xx, zz)], k) <==> (0 <= k <= 32 && opaque(
                        data.padded(xx + 1, k, zz + 1),
                    ))),
        {
            let mut bits = 0u64;
            proof {
                assert forall|k: int| !#[trigger] bit64(bits, k) by {
                    lemma_bit64_zero(k);
                }
            }
            for y in 0..n + 1
                invariant
                    n == 32,
                    x < 32,
                    z < 32,
                    data.wf(),
                    forall|k: int|
                        #[trigger] bit64(bits, k) <==> (0 <= k < y && opaque(
                            data.padded(x + 1, k, z + 1),
                        )),
            {
                if is_opaque(data.get_padded(x + PADDING, y, z + PADDING)) {
                    let ghost old_bits = bits;
                    bits = bits | (1u64 << (y as u64));
                    proof {
                        assert forall|k: int|
                            #[trigger] bit64(bits, k) <==> (0 <= k < y + 1 && opaque(
                                data.padded(x + 1, k, z + 1),
                            )) by {
                            lemma_bit64_set(old_bits, y as u64, k);
                        }
                    }
                }
            }
            let ghost before = columns@;
            columns[x * n + z] = bits;
            proof {
                assert forall|xx: int, zz: int, k: int|
                    (0 <= xx < x && 0 <= zz < 32) || (xx == x && 0 <= zz < z + 1) implies (
                    #[trigger] bit64(columns@[col_index(xx, zz)], k) <==> (0 <= k <= 32 && opaque(
                        data.padded(xx + 1, k, zz + 1),
                    ))) by {
                    if xx != x || zz != z {
                        assert(columns@[col_index(xx, zz)] == before[col_index(xx, zz)]);
                    }
                }
            }
        }
    }

    let mut up_faces: Vec<u64> = vec![0u64; n * n];
    let mut down_faces: Vec<u64> = vec![0u64; n * n];
    for i in 0..columns.len()
        invariant
            columns@.len() == 1024,
            up_faces@.len() == 1024,
            down_faces@.len() == 1024,
            forall|j: int| 0 <= j < i ==> #[trigger] up_faces@[j] == columns@[j] & !(columns@[j] >> 1u64),
            forall|j: int| 0 <= j < i ==> #[trigger] down_faces@[j] == columns@[j] & !(columns@[j] << 1u64),
    {
        let col = columns[i];
        up_faces[i] = col & !(col >> 1);
        down_faces[i] = col & !(col << 1);
    }

    proof {
        assert forall|l: int, a: int, b: int|
            0 <= l < 32 && 0 <= a < 32 && 0 <= b < 32 implies (bit64(
            up_faces@[col_index(a, b)],
            l + face_shift(Face::Up),
        ) <==> #[trigger] face_visible(
            *data,
            Face::Up,
            cell_x(Face::Up, l, a, b),
            cell_y(Face::Up, l, a, b),
            cell_z(Face::Up, l, a, b),
        )) by {
            let col = columns@[col_index(a, b)];
            lemma_face_above(col, l);
            assert(up_faces@[col_index(a, b)] == col & !(col >> 1u64));
            assert(bit64(col, l) == opaque(data.padded(a + 1, l, b + 1)));
            assert(bit64(col, l + 1) == opaque(data.padded(a + 1, l + 1, b + 1)));
        }
    }

    let ghost start = builder.quads();
    proof {
        lemma_meshed_empty(*data, start, |f: Face, l: int| f == Face::Up && 0 <= l < 0);
    }
    for y in 0..n
        invariant
            n == 32,
            data.wf(),
            data.known_blocks(),
            builder.wf(),
            start.len() + 131072 <= MAX_QUADS,
            builder.quads().len() <= start.len() + 4096 * y,
            up_faces@.len() == 1024,
            face_bits(*data, up_faces@, Face::Up),
            meshed(*data, start, builder.quads(), |f: Face, l: int| f == Face::Up && 0 <= l < y),
    {
        let (masks, used) = fill_layer_masks(data, &up_faces, Face::Up, y);
        let ghost mid = builder.quads();
        if any_used(&used) {
            emit_layer(builder, &masks, &used, Face::Up, y);
        } else {
            proof {
                lemma_nothing_emitted(mid, masks@, Face::Up, y as int);
            }
        }
        proof {
            lemma_meshed_layer(
                *data,
                start,
                mid,
                builder.quads(),
                masks@,
                Face::Up,
                y as int,
                |f: Face, l: int| f == Face::Up && 0 <= l < y,
                |f: Face, l: int| f == Face::Up && 0 <= l < y + 1,
            );
        }
    }
}

/// What is meshed depends only on which `(face, layer)` pairs are selected,
/// not on how the selection is written.
proof fn lemma_meshed_same(
    data: ChunkData,
    start: Seq<Quad>,
    cur: Seq<Quad>,
    done: spec_fn(Face, int) -> bool,
    done2: spec_fn(Face, int) -> bool,
)
    requires
        meshed(data, start, cur, done),
        forall|f: Face, l: int| #[trigger] done2(f, l) == done(f, l),
    ensures
        meshed(data, start, cur, done2),
{
}

/// Right (+X) and left (-X) faces. Each `(y, z)` row along X is one `u64`
/// over the padded range (bit `p` is padded x `p`), so a face at the
/// chunk's edge sees the neighbouring chunk's border block instead of
/// assuming air. `row & !(row >> 1)` marks opaque blocks with an open block
/// to the right, `row & !(row << 1)` those with an open block to the left.
///
/// The builder needs room within [`MAX_QUADS`] (the `u32` index range)
/// for the most quads this pass can add.
pub fn mesh_axis_x(data: &ChunkData, builder: &mut MeshBuilder)
    requires
        data.wf(),
        data.known_blocks(),
        old(builder).wf(),
        old(builder).quads().len() + 262144 <= MAX_QUADS,
    ensures
        final(builder).wf(),
        final(builder).quads().len() <= old(builder).quads().len() + 262144,
        meshed(
            *data,
            old(builder).quads(),
            final(builder).quads(),
            (|f: Face, l: int| (f == Face::Right || f == Face::Left) && 0 <= l < 32),
        ),
{
    let n = CHUNK_SIZE;
    let mut columns: Vec<u64> = vec![0u64; n * n];
    for y in 0..n
        invariant
            n == 32,
            data.wf(),
            columns@.len() == 1024,
            forall|yy: int, zz: int, k: int|
                0 <= yy < y && 0 <= zz < 32 ==> (#[trigger] bit64(columns@[col_index(yy, zz)], k)
                    <==> (0 <= k < 34 && opaque(data.padded(k, yy, zz + 1)))),
    {
        for z in 0..n
            invariant
                n == 32,
                y < 32,
                data.wf(),
                columns@.len() == 1024,
                forall|yy: int, zz: int, k: int|
                    (0 <= yy < y && 0 <= zz < 32) || (yy == y && 0 <= zz < z) ==> (
                    #[trigger] bit64(columns@[col_index(yy, zz)], k) <==> (0 <= k < 34 && opaque(
                        data.padded(k, yy, zz + 1),
                    ))),
        {
            let mut bits = 0u64;
            proof {
                assert forall|k: int| !#[trigger] bit64(bits, k) by {
                    lemma_bit64_zero(k);
                }
            }
            for padded_x in 0..PADDED_SIZE
                invariant
                    n == 32,
                    y < 32,
                    z < 32,
                    data.wf(),
                    forall|k: int|
                        #[trigger] bit64(bits, k) <==> (0 <= k < padded_x && opaque(
                            data.padded(k, y as int, z + 1),
                        )),
            {
                if is_opaque(data.get_padded(padded_x, y, z + PADDING)) {
                    let ghost old_bits = bits;
                    bits = bits | (1u64 << (padded_x as u64));
                    proof {
                        assert forall|k: int|
                            #[trigger] bit64(bits, k) <==> (0 <= k < padded_x + 1 && opaque(
                                data.padded(k, y as int, z + 1),
                            )) by {
                            lemma_bit64_set(old_bits, padded_x as u64, k);
                        }
                    }
                }
            }
            let ghost before = columns@;
            columns[y * n + z] = bits;
            proof {
                assert forall|yy: int, zz: int, k: int|
                    (0 <= yy < y && 0 <= zz < 32) || (yy == y && 0 <= zz < z + 1) implies (
                    #[trigger] bit64(columns@[col_index(yy, zz)], k) <==> (0 <= k < 34 && opaque(
                        data.padded(k, yy, zz + 1),
                    ))) by {
                    if yy != y || zz != z {
                        assert(columns@[col_index(yy, zz)] == before[col_index(yy, zz)]);
                    }
                }
            }
        }
    }

    let mut right_faces: Vec<u64> = vec![0u64; n * n];
    let mut left_faces: Vec<u64> = vec![0u64; n * n];
    for i in 0..columns.len()
        invariant
            columns@.len() == 1024,
            right_faces@.len() == 1024,
            left_faces@.len() == 1024,
            forall|j: int| 0 <= j < i ==> #[trigger] right_faces@[j] == columns@[j] & !(columns@[j] >> 1u64),
            forall|j: int| 0 <= j < i ==> #[trigger] left_faces@[j] == columns@[j] & !(columns@[j] << 1u64),
    {
        let col = columns[i];
        right_faces[i] = col & !(col >> 1);
        left_faces[i] = col & !(col << 1);
    }
    proof {
        assert forall|l: int, a: int, b: int|
            0 <= l < 32 && 0 <= a < 32 && 0 <= b < 32 implies (bit64(
            right_faces@[col_index(a, b)],
            l + face_shift(Face::Right),
        ) <==> #[trigger] face_visible(
            *data,
            Face::Right,
            cell_x(Face::Right, l, a, b),
            cell_y(Face::Right, l, a, b),
            cell_z(Face::Right, l, a, b),
        )) by {
            let col = columns@[col_index(a, b)];
            lemma_face_above(col, l + 1);
            assert(right_faces@[col_index(a, b)] == col & !(col >> 1u64));
            assert(bit64(col, l + 1) == opaque(data.padded(l + 1, a, b + 1)));
            assert(bit64(col, l + 2) == opaque(data.padded(l + 2, a, b + 1)));
        }
        assert forall|l: int, a: int, b: int|
            0 <= l < 32 && 0 <= a < 32 && 0 <= b < 32 implies (bit64(
            left_faces@[col_index(a, b)],
            l + face_shift(Face::Left),
        ) <==> #[trigger] face_visible(
            *data,
            Face::Left,
            cell_x(Face::Left, l, a, b),
            cell_y(Face::Left, l, a, b),
            cell_z(Face::Left, l, a, b),
        )) by {
            let col = columns@[col_index(a, b)];
            lemma_face_below(col, l + 1);
            assert(left_faces@[col_index(a, b)] == col & !(col << 1u64));
            assert(bit64(col, l + 1) == opaque(data.padded(l + 1, a, b + 1)));
            assert(bit64(col, l) == opaque(data.padded(l, a, b + 1)));
        }
    }

    let ghost start = builder.quads();
    proof {
        lemma_meshed_empty(*data, start, |f: Face, l: int| false);
    }
    for pass in 0..2usize
        invariant
            n == 32,
            data.wf(),
            data.known_blocks(),
            builder.wf(),
            start.len() + 262144 <= MAX_QUADS,
            builder.quads().len() <= start.len() + 131072 * pass,
            right_faces@.len() == 1024,
            left_faces@.len() == 1024,
            face_bits(*data, right_faces@, Face::Right),
            face_bits(*data, left_faces@, Face::Left),
            meshed(
                *data,
                start,
                builder.quads(),
                |f: Face, l: int|
                    ((pass >= 1 && f == Face::Right) || (pass >= 2 && f == Face::Left)) && 0 <= l < 32,
            ),
    {
        let positive = pass == 0;
        let face = if positive {
            Face::Right
        } else {
            Face::Left
        };
        let faces = if positive {
            &right_faces
        } else {
            &left_faces
        };
        let ghost base = builder.quads().len();
        for x in 0..n
            invariant
                n == 32,
                pass < 2,
                face == (if pass == 0 { Face::Right } else { Face::Left }),
                data.wf(),
                data.known_blocks(),
                builder.wf(),
                start.len() + 262144 <= MAX_QUADS,
                base <= start.len() + 131072 * pass,
                builder.quads().len() <= base + 4096 * x,
                faces@.len() == 1024,
                face_bits(*data, faces@, face),
                meshed(
                    *data,
                    start,
                    builder.quads(),
                    |f: Face, l: int| (((pass >= 1 && f == Face::Right) || (pass >= 2 && f == Face::Left)) && 0 <= l < 32) || (f == face
                        && 0 <= l < x),
                ),
        {
            let (masks, used) = fill_layer_masks(data, faces, face, x);
            let ghost mid = builder.quads();
            if any_used(&used) {
                emit_layer(builder, &masks, &used, face, x);
            } else {
                proof {
                    lemma_nothing_emitted(mid, masks@, face, x as int);
                }
            }
            proof {
                lemma_meshed_layer(
                    *data,
                    start,
                    mid,
                    builder.quads(),
                    masks@,
                    face,
                    x as int,
                    |f: Face, l: int| (((pass >= 1 && f == Face::Right) || (pass >= 2 && f == Face::Left)) && 0 <= l < 32) || (f == face
                        && 0 <= l < x),
                    |f: Face, l: int| (((pass >= 1 && f == Face::Right) || (pass >= 2 && f == Face::Left)) && 0 <= l < 32) || (f == face
                        && 0 <= l < x + 1),
                );
            }
        }
        proof {
            lemma_meshed_same(
                *data,
                start,
                builder.quads(),
                |f: Face, l: int| (((pass >= 1 && f == Face::Right) || (pass >= 2 && f == Face::Left)) && 0 <= l < 32) || (f == face && 0
                    <= l < 32),
                |f: Face, l: int|
                    ((pass + 1 >= 1 && f == Face::Right) || (pass + 1 >= 2 && f == Face::Left)) && 0
                        <= l < 32,
            );
        }
    }
    proof {
        lemma_meshed_same(
            *data,
            start,
            builder.quads(),
            |f: Face, l: int|
                ((2 >= 1 && f == Face::Right) || (2 >= 2 && f == Face::Left)) && 0 <= l < 32,
            |f: Face, l: int| (f == Face::Right || f == Face::Left) && 0 <= l < 32,
        );
    }
}

/// Front (+Z) and back (-Z) faces, the same way as [`mesh_axis_x`]: each
/// `(x, y)` row along Z is one `u64` over the padded range (bit `p` is
/// padded z `p`).
///
/// The builder needs room within [`MAX_QUADS`] (the `u32` index range)
/// for the most quads this pass can add.
pub fn mesh_axis_z(data: &ChunkData, builder: &mut MeshBuilder)
    requires
        data.wf(),
        data.known_blocks(),
        old(builder).wf(),
        old(builder).quads().len() + 262144 <= MAX_QUADS,
    ensures
        final(builder).wf(),
        final(builder).quads().len() <= old(builder).quads().len() + 262144,
        meshed(
            *data,
            old(builder).quads(),
            final(builder).quads(),
            (|f: Face, l: int| (f == Face::Front || f == Face::Back) && 0 <= l < 32),
        ),
{
    let n = CHUNK_SIZE;
    let mut columns: Vec<u64> = vec![0u64; n * n];
    for x in 0..n
        invariant
            n == 32,
            data.wf(),
            columns@.len() == 1024,
            forall|xx: int, yy: int, k: int|
                0 <= xx < x && 0 <= yy < 32 ==> (#[trigger] bit64(columns@[col_index(xx, yy)], k)
                    <==> (0 <= k < 34 && opaque(data.padded(xx + 1, yy, k)))),
    {
        for y in 0..n
            invariant
                n == 32,
                x < 32,
                data.wf(),
                columns@.len() == 1024,
                forall|xx: int, yy: int, k: int|
                    (0 <= xx < x && 0 <= yy < 32) || (xx == x && 0 <= yy < y) ==> (
                    #[trigger] bit64(columns@[col_index(xx, yy)], k) <==> (0 <= k < 34 && opaque(
                        data.padded(xx + 1, yy, k),
                    ))),
        {
            let mut bits = 0u64;
            proof {
                assert forall|k: int| !#[trigger] bit64(bits, k) by {
                    lemma_bit64_zero(k);
                }
            }
            for padded_z in 0..PADDED_SIZE
                invariant
                    n == 32,
                    x < 32,
                    y < 32,
                    data.wf(),
                    forall|k: int|
                        #[trigger] bit64(bits, k) <==> (0 <= k < padded_z && opaque(
                            data.padded(x + 1, y as int, k),
                        )),
            {
                if is_opaque(data.get_padded(x + PADDING, y, padded_z)) {
                    let ghost old_bits = bits;
                    bits = bits | (1u64 << (padded_z as u64));
                    proof {
                        assert forall|k: int|
                            #[trigger] bit64(bits, k) <==> (0 <= k < padded_z + 1 && opaque(
                                data.padded(x + 1, y as int, k),
                            )) by {
                            lemma_bit64_set(old_bits, padded_z as u64, k);
                        }
                    }
                }
            }
            let ghost before = columns@;
            columns[x * n + y] = bits;
            proof {
                assert forall|xx: int, yy: int, k: int|
                    (0 <= xx < x && 0 <= yy < 32) || (xx == x && 0 <= yy < y + 1) implies (
                    #[trigger] bit64(columns@[col_index(xx, yy)], k) <==> (0 <= k < 34 && opaque(
                        data.padded(xx + 1, yy, k),
                    ))) by {
                    if xx != x || yy != y {
                        assert(columns@[col_index(xx, yy)] == before[col_index(xx, yy)]);
                    }
                }
            }
        }
    }

    let mut front_faces: Vec<u64> = vec![0u64; n * n];
    let mut back_faces: Vec<u64> = vec![0u64; n * n];
    for i in 0..columns.len()
        invariant
            columns@.len() == 1024,
            front_faces@.len() == 1024,
            back_faces@.len() == 1024,
            forall|j: int| 0 <= j < i ==> #[trigger] front_faces@[j] == columns@[j] & !(columns@[j] >> 1u64),
            forall|j: int| 0 <= j < i ==> #[trigger] back_faces@[j] == columns@[j] & !(columns@[j] << 1u64),
    {
        let col = columns[i];
        front_faces[i] = col & !(col >> 1);
        back_faces[i] = col & !(col << 1);
    }
    proof {
        assert forall|l: int, a: int, b: int|
            0 <= l < 32 && 0 <= a < 32 && 0 <= b < 32 implies (bit64(
            front_faces@[col_index(a, b)],
            l + face_shift(Face::Front),
        ) <==> #[trigger] face_visible(
            *data,
            Face::Front,
            cell_x(Face::Front, l, a, b),
            cell_y(Face::Front, l, a, b),
            cell_z(Face::Front, l, a, b),
        )) by {
            let col = columns@[col_index(a, b)];
            lemma_face_above(col, l + 1);
            assert(front_faces@[col_index(a, b)] == col & !(col >> 1u64));
            assert(bit64(col, l + 1) == opaque(data.padded(a + 1, b, l + 1)));
            assert(bit64(col, l + 2) == opaque(data.padded(a + 1, b, l + 2)));
        }
        assert forall|l: int, a: int, b: int|
            0 <= l < 32 && 0 <= a < 32 && 0 <= b < 32 implies (bit64(
            back_faces@[col_index(a, b)],
            l + face_shift(Face::Back),
        ) <==> #[trigger] face_visible(
            *data,
            Face::Back,
            cell_x(Face::Back, l, a, b),
            cell_y(Face::Back, l, a, b),
            cell_z(Face::Back, l, a, b),
        )) by {
            let col = columns@[col_index(a, b)];
            lemma_face_below(col, l + 1);
            assert(back_faces@[col_index(a, b)] == col & !(col << 1u64));
            assert(bit64(col, l + 1) == opaque(data.padded(a + 1, b, l + 1)));
            assert(bit64(col, l) == opaque(data.padded(a + 1, b, l)));
        }
    }

    let ghost start = builder.quads();
    proof {
        lemma_meshed_empty(*data, start, |f: Face, l: int| false);
    }
    for pass in 0..2usize
        invariant
            n == 32,
            data.wf(),
            data.known_blocks(),
            builder.wf(),
            start.len() + 262144 <= MAX_QUADS,
            builder.quads().len() <= start.len() + 131072 * pass,
            front_faces@.len() == 1024,
            back_faces@.len() == 1024,
            face_bits(*data, front_faces@, Face::Front),
            face_bits(*data, back_faces@, Face::Back),
            meshed(
                *data,
                start,
                builder.quads(),
                |f: Face, l: int|
                    ((pass >= 1 && f == Face::Front) || (pass >= 2 && f == Face::Back)) && 0 <= l < 32,
            ),
    {
        let positive = pass == 0;
        let face = if positive {
            Face::Front
        } else {
            Face::Back
        };
        let faces = if positive {
            &front_faces
        } else {
            &back_faces
        };
        let ghost base = builder.quads().len();
        for z in 0..n
            invariant
                n == 32,
                pass < 2,
                face == (if pass == 0 { Face::Front } else { Face::Back }),
                data.wf(),
                data.known_blocks(),
                builder.wf(),
                start.len() + 262144 <= MAX_QUADS,
                base <= start.len() + 131072 * pass,
                builder.quads().len() <= base + 4096 * z,
                faces@.len() == 1024,
                face_bits(*data, faces@, face),
                meshed(
                    *data,
                    start,
                    builder.quads(),
                    |f: Face, l: int| (((pass >= 1 && f == Face::Front) || (pass >= 2 && f == Face::Back)) && 0 <= l < 32) || (f == face
                        && 0 <= l < z),
                ),
        {
            let (masks, used) = fill_layer_masks(data, faces, face, z);
            let ghost mid = builder.quads();
            if any_used(&used) {
                emit_layer(builder, &masks, &used, face, z);
            } else {
                proof {
                    lemma_nothing_emitted(mid, masks@, face, z as int);
                }
            }
            proof {
                lemma_meshed_layer(
                    *data,
                    start,
                    mid,
                    builder.quads(),
                    masks@,
                    face,
                    z as int,
                    |f: Face, l: int| (((pass >= 1 && f == Face::Front) || (pass >= 2 && f == Face::Back)) && 0 <= l < 32) || (f == face
                        && 0 <= l < z),
                    |f: Face, l: int| (((pass >= 1 && f == Face::Front) || (pass >= 2 && f == Face::Back)) && 0 <= l < 32) || (f == face
                        && 0 <= l < z + 1),
                );
            }
        }
        proof {
            lemma_meshed_same(
                *data,
                start,
                builder.quads(),
                |f: Face, l: int| (((pass >= 1 && f == Face::Front) || (pass >= 2 && f == Face::Back)) && 0 <= l < 32) || (f == face && 0
                    <= l < 32),
                |f: Face, l: int|
                    ((pass + 1 >= 1 && f == Face::Front) || (pass + 1 >= 2 && f == Face::Back)) && 0
                        <= l < 32,
            );
        }
    }
    proof {
        lemma_meshed_same(
            *data,
            start,
            builder.quads(),
            |f: Face, l: int|
                ((2 >= 1 && f == Face::Front) || (2 >= 2 && f == Face::Back)) && 0 <= l < 32,
            |f: Face, l: int| (f == Face::Front || f == Face::Back) && 0 <= l < 32,
        );
    }
}

/// Meshing two disjoint selections one after the other meshes their union.
proof fn lemma_meshed_concat(
    data: ChunkData,
    start: Seq<Quad>,
    mid: Seq<Quad>,
    cur: Seq<Quad>,
    done1: spec_fn(Face, int) -> bool,
    done2: spec_fn(Face, int) -> bool,
    both: spec_fn(Face, int) -> bool,
)
    requires
        meshed(data, start, mid, done1),
        meshed(data, mid, cur, done2),
        forall|f: Face, l: int| !(#[trigger] done1(f, l) && done2(f, l)),
        forall|f1: Face, l1: int, f2: Face, l2: int|
            #[trigger] done1(f1, l1) && #[trigger] done2(f2, l2) ==> slot(f1, l1) < slot(f2, l2),
        forall|f: Face, l: int| #[trigger] both(f, l) == (done1(f, l) || done2(f, l)),
    ensures
        meshed(data, start, cur, both),
{
    assert forall|i: int| 0 <= i < mid.len() implies cur[i] == mid[i] by {
        assert(cur.subrange(0, mid.len() as int)[i] == mid[i]);
    }
    assert(cur.subrange(0, start.len() as int) =~= start) by {
        assert forall|i: int| 0 <= i < start.len() implies cur[i] == start[i] by {
            assert(mid.subrange(0, start.len() as int)[i] == start[i]);
        }
    }
    assert forall|i: int, j: int, x: int, y: int, z: int|
        start.len() <= i < cur.len() && start.len() <= j < cur.len() && cur[i].face == cur[j].face
            && #[trigger] quad_covers(cur[i], x, y, z) && #[trigger] quad_covers(
            cur[j],
            x,
            y,
            z,
        ) implies i == j by {
        if i < mid.len() && j >= mid.len() {
            assert(done1(cur[i].face, cur[i].layer as int));
            assert(done2(cur[j].face, cur[j].layer as int));
        } else if j < mid.len() && i >= mid.len() {
            assert(done1(cur[j].face, cur[j].layer as int));
            assert(done2(cur[i].face, cur[i].layer as int));
        }
    }
    assert forall|f: Face, x: int, y: int, z: int|
        in_chunk(x, y, z) && both(f, layer_of(f, x, y, z)) && #[trigger] face_visible(
            data,
            f,
            x,
            y,
            z,
        ) implies exists|i: int|
        start.len() <= i < cur.len() && cur[i].face == f && #[trigger] quad_covers(cur[i], x, y, z) by {
        if done1(f, layer_of(f, x, y, z)) {
            let i = choose|i: int|
                start.len() <= i < mid.len() && mid[i].face == f && #[trigger] quad_covers(
                    mid[i],
                    x,
                    y,
                    z,
                );
            assert(cur[i] == mid[i]);
            assert(quad_covers(cur[i], x, y, z));
        }
    }
    assert forall|i: int, j: int| start.len() <= i < j < cur.len() implies #[trigger] quad_before(
        cur[i],
        cur[j],
    ) by {
        if j < mid.len() {
            assert(quad_before(mid[i], mid[j]));
        } else if i >= mid.len() {
        } else {
            assert(done1(mid[i].face, mid[i].layer as int));
            assert(done2(cur[j].face, cur[j].layer as int));
        }
    }
    let s = start.len() as int;
    assert(cur.skip(s) =~= mid.skip(s) + cur.skip(mid.len() as int));
    assert forall|f: Face, l: int, blk: int|
        both(f, l) && 1 <= blk < BLOCK_TYPE_COUNT implies #[trigger] greedy_tiling(
        group_rects(cur.skip(s), f, l, blk),
        layer_cells(data, f, l, blk),
    ) by {
        let first = mid.skip(s);
        let second = cur.skip(mid.len() as int);
        lemma_group_add(first, second, f, l, blk);
        if done1(f, l) {
            assert forall|i: int| 0 <= i < second.len() implies !in_group(
                #[trigger] second[i],
                f,
                l,
                blk,
            ) by {
                assert(second[i] == cur[mid.len() + i]);
                assert(done2(cur[mid.len() + i].face, cur[mid.len() + i].layer as int));
            }
            lemma_group_empty(second, f, l, blk);
            assert(group_rects(cur.skip(s), f, l, blk) =~= group_rects(first, f, l, blk));
        } else {
            assert forall|i: int| 0 <= i < first.len() implies !in_group(
                #[trigger] first[i],
                f,
                l,
                blk,
            ) by {
                assert(first[i] == mid[s + i]);
                assert(done1(mid[s + i].face, mid[s + i].layer as int));
            }
            lemma_group_empty(first, f, l, blk);
            assert(group_rects(cur.skip(s), f, l, blk) =~= group_rects(second, f, l, blk));
        }
    }
}

/// The quads of a chunk mesh draw exactly its visible faces: each is a
/// valid quad of one of the five drawn directions (downward faces are never
/// drawn, see [`mesh_axis_y`]); it covers only faces that are visible, of
/// blocks of its own type (so two block types never share a quad); no two
/// quads of one direction overlap; every visible face of a drawn direction
/// is covered; the quads of each face direction, layer and block type, in
/// order, are the greedy merge of that layer's visible faces of that type;
/// and these groups come one after another by face direction (up, right,
/// left, front, back), then layer, then block type (see [`quad_before`]).
pub open spec fn chunk_meshed(data: ChunkData, quads: Seq<Quad>) -> bool {
    &&& forall|i: int|
        0 <= i < quads.len() ==> quad_wf(#[trigger] quads[i]) && quads[i].face != Face::Down
    &&& forall|i: int, x: int, y: int, z: int|
        0 <= i < quads.len() && #[trigger] quad_covers(quads[i], x, y, z) ==> in_chunk(x, y, z)
            && face_visible(data, quads[i].face, x, y, z) && data.local(x, y, z) == quads[i].block
    &&& forall|i: int, j: int, x: int, y: int, z: int|
        0 <= i < quads.len() && 0 <= j < quads.len() && quads[i].face == quads[j].face
            && #[trigger] quad_covers(quads[i], x, y, z) && #[trigger] quad_covers(quads[j], x, y, z)
            ==> i == j
    &&& forall|f: Face, x: int, y: int, z: int|
        f != Face::Down && in_chunk(x, y, z) && #[trigger] face_visible(data, f, x, y, z)
            ==> exists|i: int| 0 <= i < quads.len() && quads[i].face == f && #[trigger] quad_covers(
            quads[i],
            x,
            y,
            z,
        )
    &&& forall|f: Face, l: int, blk: int|
        f != Face::Down && 0 <= l < 32 && 1 <= blk < BLOCK_TYPE_COUNT ==> #[trigger] greedy_tiling(
            group_rects(quads, f, l, blk),
            layer_cells(data, f, l, blk),
        )
    &&& forall|i: int, j: int| 0 <= i < j < quads.len() ==> #[trigger] quad_before(quads[i], quads[j])
}

/// Meshes a chunk: every visible up, side, front and back face of its own
/// blocks (judged against the padding at its edges), merged per layer and
/// block type into as few rectangles as the greedy merge finds. See
/// [`chunk_meshed`] for what the quads cover.
pub fn build_chunk_mesh(data: &ChunkData) -> (mesh: MeshBuilder)
    requires
        data.wf(),
        data.known_blocks(),
    ensures
        mesh.wf(),
        chunk_meshed(*data, mesh.quads()),
{
    let mut builder = MeshBuilder::new();
    let ghost q0 = builder.quads();
    mesh_axis_y(data, &mut builder);
    let ghost q1 = builder.quads();
    mesh_axis_x(data, &mut builder);
    let ghost q2 = builder.quads();
    mesh_axis_z(data, &mut builder);
    proof {
        let q3 = builder.quads();
        lemma_meshed_concat(
            *data,
            q0,
            q1,
            q2,
            |f: Face, l: int| f == Face::Up && 0 <= l < 32,
            |f: Face, l: int| (f == Face::Right || f == Face::Left) && 0 <= l < 32,
            |f: Face, l: int| (f == Face::Up || f == Face::Right || f == Face::Left) && 0 <= l < 32,
        );
        lemma_meshed_concat(
            *data,
            q0,
            q2,
            q3,
            |f: Face, l: int| (f == Face::Up || f == Face::Right || f == Face::Left) && 0 <= l < 32,
            |f: Face, l: int| (f == Face::Front || f == Face::Back) && 0 <= l < 32,
            |f: Face, l: int| f != Face::Down && 0 <= l < 32,
        );
        assert forall|i: int| 0 <= i < q3.len() implies quad_wf(#[trigger] q3[i]) && q3[i].face
            != Face::Down by {
        }
        assert forall|i: int, x: int, y: int, z: int|
            0 <= i < q3.len() && #[trigger] quad_covers(q3[i], x, y, z) implies in_chunk(x, y, z)
            && face_visible(*data, q3[i].face, x, y, z) && data.local(x, y, z) == q3[i].block by {
            assert(quad_wf(q3[i]));
        }
        assert forall|f: Face, x: int, y: int, z: int|
            f != Face::Down && in_chunk(x, y, z) && #[trigger] face_visible(
                *data,
                f,
                x,
                y,
                z,
            ) implies exists|i: int|
            0 <= i < q3.len() && q3[i].face == f && #[trigger] quad_covers(q3[i], x, y, z) by {
            assert(0 <= layer_of(f, x, y, z) < 32);
        }
        assert(q3.skip(0) =~= q3);
    }
    builder
}

/// A face's normal points at the neighbour that decides whether the face is
/// seen: the `f` face of a chunk block is visible exactly when the block is
/// opaque and the block one normal step away (read from the padded array,
/// so across the chunk's edge too) is not. Opposite faces thus get opposite,
/// outward normals.
pub proof fn lemma_normal_points_to_culling_neighbour(data: ChunkData, f: Face, x: int, y: int, z: int)
    requires
        in_chunk(x, y, z),
        f != Face::Down || y > 0,
    ensures
        face_visible(data, f, x, y, z) == (opaque(data.local(x, y, z)) && !opaque(
            data.padded(x + 1 + face_normal(f).0, y + face_normal(f).1, z + 1 + face_normal(f).2),
        )),
{
}

/// Every vertex of a mesh lies on the face it draws: for each block its quad
/// covers, the vertex sits, along the axis of its normal, on the side that
/// the block shares with the neighbour the normal points to (within both
/// unit cubes), and its normal is the quad's face normal.
pub proof fn lemma_vertices_on_shared_faces(mesh: &MeshBuilder, i: int, k: int, x: int, y: int, z: int)
    requires
        mesh.wf(),
        0 <= i < mesh.quads().len(),
        0 <= k < 4,
        quad_covers(mesh.quads()[i], x, y, z),
    ensures
        ({
            let c = mesh.positions@[4 * i + k];
            let n = mesh.normals@[4 * i + k];
            &&& n == face_normal(mesh.quads()[i].face)
            &&& n.0 != 0 ==> x <= c.0 <= x + 1 && x + n.0 <= c.0 <= x + n.0 + 1
            &&& n.1 != 0 ==> y <= c.1 <= y + 1 && y + n.1 <= c.1 <= y + n.1 + 1
            &&& n.2 != 0 ==> z <= c.2 <= z + 1 && z + n.2 <= c.2 <= z + n.2 + 1
        }),
{
    assert(mesh.vertex_ok(i, k));
    assert(quad_wf(mesh.quads()[i]));
}

/// Every index of a well-formed mesh names one of its vertices.
pub proof fn lemma_indices_in_bounds(mesh: &MeshBuilder, i: int)
    requires
        mesh.wf(),
        0 <= i < mesh.indices@.len(),
    ensures
        mesh.indices@[i] < mesh.positions@.len(),
{
    let q = i / 6;
    assert(0 <= q < mesh.quads().len());
    assert(mesh.triangles_ok(q));
    assert(i == 6 * q || i == 6 * q + 1 || i == 6 * q + 2 || i == 6 * q + 3 || i == 6 * q + 4
        || i == 6 * q + 5);
}

/// Generated terrain has no visible undersides above a chunk's bottom
/// layer: its columns are solid all the way down, so an opaque block never
/// has an open block below it inside the chunk. This is why the downward
/// faces are never meshed.
pub proof fn lemma_generated_chunks_have_no_undersides(
    data: ChunkData,
    heights: Seq<i32>,
    pos: ChunkPos,
    x: int,
    y: int,
    z: int,
)
    requires
        generated(data, heights, pos),
        in_chunk(x, y, z),
        1 <= y,
    ensures
        !face_visible(data, Face::Down, x, y, z),
{
    assert(generated_at(data, heights, pos.y * 32, x + 1, y, z + 1));
    assert(generated_at(data, heights, pos.y * 32, x + 1, y - 1, z + 1));
    let h = heights[column_index(x + 1, z + 1)] as int;
    if opaque(terrain_block(h, pos.y * 32 + y)) {
        lemma_columns_fill_downward(h, pos.y * 32 + y, pos.y * 32 + y - 1);
    }
}

} // verus!
