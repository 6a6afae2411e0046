//! Single-bit views of `u32` rows and `u64` columns, and the bitwise facts
//! the mesher's bit tricks rest on.

use vstd::prelude::*;

verus! {

/// Bit `i` of a 32-bit row.
pub open spec fn bit32(v: u32, i: int) -> bool {
    0 <= i < 32 && (v >> (i as u32)) & 1u32 == 1u32
}

/// Bit `i` of a 64-bit column.
pub open spec fn bit64(v: u64, i: int) -> bool {
    0 <= i < 64 && (v >> (i as u64)) & 1u64 == 1u64
}

proof fn bv32_and_not(p: u32, q: u32, i: u32)
    by (bit_vector)
    requires
        i < 32,
    ensures
        ((p & !q) >> i) & 1u32 == 1u32 <==> ((p >> i) & 1u32 == 1u32 && (q >> i) & 1u32 != 1u32),
{
}

proof fn bv32_and(p: u32, q: u32, i: u32)
    by (bit_vector)
    requires
        i < 32,
    ensures
        ((p & q) >> i) & 1u32 == 1u32 <==> ((p >> i) & 1u32 == 1u32 && (q >> i) & 1u32 == 1u32),
{
}

proof fn bv32_or(p: u32, q: u32, i: u32)
    by (bit_vector)
    requires
        i < 32,
    ensures
        ((p | q) >> i) & 1u32 == 1u32 <==> ((p >> i) & 1u32 == 1u32 || (q >> i) & 1u32 == 1u32),
{
}

proof fn bv32_zero(i: u32)
    by (bit_vector)
    ensures
        (0u32 >> i) & 1u32 != 1u32,
{
}

proof fn bv32_one_shl(k: u32, i: u32)
    by (bit_vector)
    requires
        k < 32,
        i < 32,
    ensures
        ((1u32 << k) >> i) & 1u32 == 1u32 <==> i == k,
{
}

proof fn bv32_run(w: u32, a: u32, i: u32)
    by (bit_vector)
    requires
        1 <= w < 32,
        a + w <= 32,
        i < 32,
    ensures
        1u32 <= (1u32 << w),
        (((((1u32 << w) - 1u32) as u32) << a) >> i) & 1u32 == 1u32 <==> (a <= i && i < a + w),
{
}

proof fn bv32_full(i: u32)
    by (bit_vector)
    requires
        i < 32,
    ensures
        (0xffff_ffffu32 >> i) & 1u32 == 1u32,
{
}

proof fn bv32_run_start(row: u32, a: u32, j: u32)
    by (bit_vector)
    requires
        a < 32,
        a + j < 32,
        (row >> a) & 1u32 == 1u32,
        ((!(row >> a)) >> j) & 1u32 == 0u32,
    ensures
        (row >> ((a + j) as u32)) & 1u32 == 1u32,
{
}

proof fn bv32_run_low(row: u32, a: u32)
    by (bit_vector)
    requires
        a < 32,
        (row >> a) & 1u32 == 1u32,
    ensures
        ((!(row >> a)) >> 0u32) & 1u32 == 0u32,
{
}

proof fn bv32_clear_decreases(row: u32, m: u32, a: u32)
    by (bit_vector)
    requires
        a < 32,
        (row >> a) & 1u32 == 1u32,
        (m >> a) & 1u32 == 1u32,
    ensures
        row & !m < row,
{
}

/// Bit `i` of `p & !q` is set exactly when it is set in `p` and clear in `q`.
pub proof fn lemma_bit32_and_not(p: u32, q: u32, i: int)
    ensures
        bit32(p & !q, i) == (bit32(p, i) && !bit32(q, i)),
{
    if 0 <= i < 32 {
        bv32_and_not(p, q, i as u32);
    }
}

/// Bit `i` of `p & q` is set exactly when it is set in both.
pub proof fn lemma_bit32_and(p: u32, q: u32, i: int)
    ensures
        bit32(p & q, i) == (bit32(p, i) && bit32(q, i)),
{
    if 0 <= i < 32 {
        bv32_and(p, q, i as u32);
    }
}

/// Bit `i` of `p | q` is set exactly when it is set in either.
pub proof fn lemma_bit32_or(p: u32, q: u32, i: int)
    ensures
        bit32(p | q, i) == (bit32(p, i) || bit32(q, i)),
{
    if 0 <= i < 32 {
        bv32_or(p, q, i as u32);
    }
}

/// No bit of zero is set.
pub proof fn lemma_bit32_zero(i: int)
    ensures
        !bit32(0u32, i),
{
    if 0 <= i < 32 {
        bv32_zero(i as u32);
    }
}

/// `1 << k` has exactly bit `k` set.
pub proof fn lemma_bit32_one_shl(k: u32, i: int)
    requires
        k < 32,
    ensures
        bit32(1u32 << k, i) == (i == k),
{
    if 0 <= i < 32 {
        bv32_one_shl(k, i as u32);
    }
}

/// The run mask of `width` bits starting at bit `a` has exactly the bits
/// `a..a + width` set.
pub proof fn lemma_run_mask(width: u32, a: u32, i: int)
    requires
        1 <= width <= 32,
        a + width <= 32,
    ensures
        width < 32 ==> 1u32 <= (1u32 << width),
        bit32(
            if width == 32 {
                0xffff_ffffu32
            } else {
                (((1u32 << width) - 1u32) as u32) << a
            },
            i,
        ) == (a <= i < a + width),
{
    if width < 32 {
        bv32_run(width, a, 0);
    }
    if 0 <= i < 32 {
        if width == 32 {
            bv32_full(i as u32);
        } else {
            bv32_run(width, a, i as u32);
        }
    }
}

/// Bit `a` of `row` is set and the low `j` bits of `!(row >> a)` are clear:
/// bits `a..a + j` of `row` are all set, and `!(row >> a)` has bit 0 clear.
pub proof fn lemma_run_start(row: u32, a: u32, j: u32)
    requires
        a < 32,
        a + j < 32,
        bit32(row, a as int),
        ((!(row >> a)) >> j) & 1u32 == 0u32,
    ensures
        bit32(row, a + j),
{
    bv32_run_start(row, a, j);
}

/// Bit 0 of `!(row >> a)` is clear when bit `a` of `row` is set.
pub proof fn lemma_run_start_low(row: u32, a: u32)
    requires
        a < 32,
        bit32(row, a as int),
    ensures
        ((!(row >> a)) >> 0u32) & 1u32 == 0u32,
{
    bv32_run_low(row, a);
}

proof fn bv32_run_end(row: u32, a: u32, t: u32)
    by (bit_vector)
    requires
        a < 32,
        a + t < 32,
        ((!(row >> a)) >> t) & 1u32 == 1u32,
    ensures
        (row >> ((a + t) as u32)) & 1u32 != 1u32,
{
}

/// Bit `t` of `!(row >> a)` is set: bit `a + t` of `row` is clear, so a run
/// of set bits from `a` stops there.
pub proof fn lemma_run_end(row: u32, a: u32, t: u32)
    requires
        a < 32,
        a + t < 32,
        ((!(row >> a)) >> t) & 1u32 == 1u32,
    ensures
        !bit32(row, a + t),
{
    bv32_run_end(row, a, t);
}

proof fn bv32_missing(v: u32, m: u32)
    by (bit_vector)
    requires
        v & m != m,
    ensures
        m & !v != 0u32,
{
}

/// When `v` does not hold every bit of `m`, some bit of `m` is clear in `v`.
pub proof fn lemma_missing_bit(v: u32, m: u32) -> (x: int)
    requires
        v & m != m,
    ensures
        bit32(m, x),
        !bit32(v, x),
{
    bv32_missing(v, m);
    let w = m & !v;
    let t = vstd::std_specs::bits::u32_trailing_zeros(w);
    vstd::std_specs::bits::axiom_u32_trailing_zeros(w);
    lemma_bit32_and_not(m, v, t as int);
    t as int
}

/// Clearing a mask that shares a set bit with `row` makes `row` smaller.
pub proof fn lemma_clear_decreases(row: u32, m: u32, a: u32)
    requires
        a < 32,
        bit32(row, a as int),
        bit32(m, a as int),
    ensures
        row & !m < row,
{
    bv32_clear_decreases(row, m, a);
}

proof fn bv64_or_one_shl(c: u64, k: u64, i: u64)
    by (bit_vector)
    requires
        k < 64,
        i < 64,
    ensures
        ((c | (1u64 << k)) >> i) & 1u64 == 1u64 <==> ((c >> i) & 1u64 == 1u64 || i == k),
{
}

proof fn bv64_zero(i: u64)
    by (bit_vector)
    ensures
        (0u64 >> i) & 1u64 != 1u64,
{
}

proof fn bv64_face_above(c: u64, i: u64)
    by (bit_vector)
    requires
        i < 63,
    ensures
        ((c & !(c >> 1u64)) >> i) & 1u64 == 1u64 <==> ((c >> i) & 1u64 == 1u64 && (c >> ((i + 1) as u64)) & 1u64 != 1u64),
{
}

proof fn bv64_face_below(c: u64, i: u64)
    by (bit_vector)
    requires
        1 <= i < 64,
    ensures
        ((c & !(c << 1u64)) >> i) & 1u64 == 1u64 <==> ((c >> i) & 1u64 == 1u64 && (c >> ((i - 1) as u64)) & 1u64 != 1u64),
{
}

/// Setting bit `k` of a column adds exactly that bit.
pub proof fn lemma_bit64_set(c: u64, k: u64, i: int)
    requires
        k < 64,
    ensures
        bit64(c | (1u64 << k), i) == (bit64(c, i) || i == k),
{
    if 0 <= i < 64 {
        bv64_or_one_shl(c, k, i as u64);
    }
}

/// No bit of zero is set.
pub proof fn lemma_bit64_zero(i: int)
    ensures
        !bit64(0u64, i),
{
    if 0 <= i < 64 {
        bv64_zero(i as u64);
    }
}

/// `c & !(c >> 1)` sets bit `i` where `i` is set and `i + 1` is clear.
pub proof fn lemma_face_above(c: u64, i: int)
    requires
        0 <= i < 63,
    ensures
        bit64(c & !(c >> 1u64), i) == (bit64(c, i) && !bit64(c, i + 1)),
{
    bv64_face_above(c, i as u64);
}

/// `c & !(c << 1)` sets bit `i` where `i` is set and `i - 1` is clear.
pub proof fn lemma_face_below(c: u64, i: int)
    requires
        1 <= i < 64,
    ensures
        bit64(c & !(c << 1u64), i) == (bit64(c, i) && !bit64(c, i - 1)),
{
    bv64_face_below(c, i as u64);
}

} // verus!
