use vstd::prelude::*;
use crate::field::{Field, Point};

verus! {

/// Number of subdivision levels of the spatial index. Level 0 is a single
/// quadrant covering the whole field; level `QUAD_TREE_LEVEL_COUNT - 1` is
/// the finest grid.
pub const QUAD_TREE_LEVEL_COUNT: u32 = 4;

/// Total bucket count over all levels: the geometric sum 1 + 4 + 16 + 64.
pub const NUM_SPACES: usize = 85;

pub open spec fn pow2(e: int) -> int
    decreases e,
{
    if e <= 0 {
        1
    } else {
        2 * pow2(e - 1)
    }
}

pub open spec fn pow4(e: int) -> int
    decreases e,
{
    if e <= 0 {
        1
    } else {
        4 * pow4(e - 1)
    }
}

/// Index of the cell a coordinate falls in when `dim` field units are split
/// into `2 ^ level` equal cells: floor of `c` over the exact cell size
/// `dim / 2 ^ level`, computed without fractions.
pub open spec fn cell_at(c: int, level: int, dim: int) -> int {
    c * pow2(level) / dim
}

/// Morton (Z-order) code of a grid cell: the low `bits` bits of `cx` and
/// `cy` interleaved, x bits in the even positions and y bits in the odd.
pub open spec fn morton_interleave(cx: int, cy: int, bits: int) -> int
    decreases bits,
{
    if bits <= 0 {
        0
    } else {
        4 * morton_interleave(cx / 2, cy / 2, bits - 1) + cx % 2 + 2 * (cy % 2)
    }
}

/// Morton code of a point on the level-`level` grid over the field.
pub open spec fn point_code(p: Point, level: int, f: Field) -> int {
    morton_interleave(
        cell_at(p.x as int, level, f.width as int),
        cell_at(p.y as int, level, f.height as int),
        level,
    )
}

/// Index of a level's first bucket in the flat bucket array: the bucket
/// counts of all coarser levels summed (0, 1, 5, 21 for levels 0 to 3).
pub open spec fn level_offset(level: int) -> int
    decreases level,
{
    if level <= 0 {
        0
    } else {
        level_offset(level - 1) + pow4(level - 1)
    }
}

/// The subdivision level at which two finest-level Morton codes diverge:
/// the position of the highest nonzero two-bit group of their XOR. Equal
/// codes never diverge and give the finest level; codes that differ in the
/// topmost group diverge at the very first subdivision and give level 0.
pub open spec fn diverge_level(mu: int, md: int) -> int {
    if mu / 16 != md / 16 {
        0
    } else if mu / 4 != md / 4 {
        1
    } else if mu != md {
        2
    } else {
        3
    }
}

/// Bucket of an entity from its two corner codes: the quadrant at the
/// divergence level that contains the up-left corner, offset by the bucket
/// counts of the coarser levels.
pub open spec fn bucket_from_codes(mu: int, md: int) -> int {
    let l = diverge_level(mu, md);
    level_offset(l) + mu / pow4(3 - l)
}

/// The XOR of two six-bit codes is below a power of four exactly when the
/// codes agree above the corresponding two-bit group; this is what lets a
/// single XOR locate the highest group where two codes diverge.
pub proof fn lemma_xor_group(a: u32, b: u32)
    requires
        a < 64,
        b < 64,
    ensures
        ((a ^ b) == 0) == (a == b),
        ((a ^ b) < 4) == (a / 4 == b / 4),
        ((a ^ b) < 16) == (a / 16 == b / 16),
        (a / 4 == b / 4) ==> (a / 16 == b / 16),
{
    assert((a / 4 == b / 4) ==> (a / 16 == b / 16)) by (bit_vector)
        requires
            a < 64 && b < 64,
    ;
    assert(((a ^ b) == 0) == (a == b)) by (bit_vector);
    assert(((a ^ b) < 4) == (a / 4 == b / 4)) by (bit_vector)
        requires
            a < 64 && b < 64,
    ;
    assert(((a ^ b) < 16) == (a / 16 == b / 16)) by (bit_vector)
        requires
            a < 64 && b < 64,
    ;
}

/// An entity whose two corners fall in the same finest cell is assigned a
/// finest-level bucket, never an ancestor: equal corner codes place it at
/// the bucket of that very cell.
pub proof fn lemma_equal_codes_get_finest_bucket(mu: int, md: int)
    requires
        0 <= mu < 64,
        mu == md,
    ensures
        bucket_from_codes(mu, md) == level_offset(3) + mu,
        level_offset(3) <= bucket_from_codes(mu, md) < NUM_SPACES,
{
    reveal_with_fuel(level_offset, 5);
    reveal_with_fuel(pow4, 5);
}

/// An entity whose corner codes diverge in their topmost two-bit group
/// spans the very first subdivision and is assigned the single root
/// bucket.
pub proof fn lemma_top_divergence_gets_root_bucket(mu: int, md: int)
    requires
        0 <= mu < 64,
        0 <= md < 64,
        mu / 16 != md / 16,
    ensures
        bucket_from_codes(mu, md) == 0,
{
    reveal_with_fuel(level_offset, 5);
    reveal_with_fuel(pow4, 5);
    assert(diverge_level(mu, md) == 0);
    assert(pow4(3) == 64);
    assert(mu / 64 == 0);
}

pub(crate) fn pow2_exec(e: u32) -> (r: u32)
    requires
        e < QUAD_TREE_LEVEL_COUNT,
    ensures
        r == pow2(e as int),
        1 <= r <= 8,
{
    let r: u32 = match e {
        0 => 1,
        1 => 2,
        2 => 4,
        _ => 8,
    };
    proof {
        reveal_with_fuel(pow2, 5);
    }
    r
}

pub(crate) fn morton_code(cx: u32, cy: u32, bits: u32) -> (r: u32)
    requires
        bits <= 3,
        cx < pow2(bits as int),
        cy < pow2(bits as int),
    ensures
        r == morton_interleave(cx as int, cy as int, bits as int),
        r < pow4(bits as int),
    decreases bits,
{
    if bits == 0 {
        0
    } else {
        let rest: u32 = morton_code(cx / 2, cy / 2, bits - 1);
        proof {
            reveal_with_fuel(pow4, 4);
            if bits == 1 {
                assert(pow4(0) == 1);
            }
            if bits == 2 {
                assert(pow4(1) == 4);
            }
            if bits == 3 {
                assert(pow4(2) == 16);
            }
            assert(pow4(bits as int - 1) <= 16);
        }
        4 * rest + cx % 2 + 2 * (cy % 2)
    }
}

impl Point {
    /// Morton index of this point on the `2 ^ level`-per-side grid over the
    /// field: the bits of the two cell coordinates interleaved. The cell
    /// size is the field dimension divided by the cells per side.
    pub fn to_quad_tree_index(&self, level: u32, field: &Field) -> (r: u32)
        requires
            field.wf(),
            level < QUAD_TREE_LEVEL_COUNT,
            self.x < field.width,
            self.y < field.height,
        ensures
            r == point_code(*self, level as int, *field),
            r < pow4(level as int),
    {
        let cells: u32 = pow2_exec(level);
        proof {
            assert(self.x as int * cells as int <= 0xFFFF_FFFF * 8 && self.y as int * cells as int
                <= 0xFFFF_FFFF * 8) by (nonlinear_arith)
                requires
                    self.x <= 0xFFFF_FFFFu32 && self.y <= 0xFFFF_FFFFu32 && cells <= 8,
            ;
        }
        let qx: u64 = (self.x as u64 * cells as u64) / (field.width as u64);
        let qy: u64 = (self.y as u64 * cells as u64) / (field.height as u64);
        proof {
            assert((self.x as int * cells as int) / (field.width as int) < cells as int)
                by (nonlinear_arith)
                requires
                    self.x < field.width && cells >= 1,
            ;
            assert((self.y as int * cells as int) / (field.height as int) < cells as int)
                by (nonlinear_arith)
                requires
                    self.y < field.height && cells >= 1,
            ;
        }
        let cx: u32 = qx as u32;
        let cy: u32 = qy as u32;
        morton_code(cx, cy, level)
    }
}

} // verus!
