//! Arithmetic facts about row-major grid indices and segment crossings.
use vstd::prelude::*;

verus! {

/// The largest offset of a manipulator from its worker, on either axis.
/// Moves turn arm offsets and add them to cell coordinates in `i32`; with
/// offsets and grid sides this far below the ends of `i32`, no turn or sum
/// can overflow, where unbounded offsets would. The arms that the solvers
/// attach (`next_arm`) lie next to the worker's other arms, so real offsets
/// stay within a few cells.
pub const REACH: i32 = 65536;

/// The row-major index of a cell.
pub open spec fn idx(x: int, y: int, width: int) -> int {
    y * width + x
}

pub open spec fn in_grid(x: int, y: int, width: int, height: int) -> bool {
    0 <= x < width && 0 <= y < height
}

pub proof fn lemma_index(x: int, y: int, width: int, height: int)
    requires
        0 <= x < width,
        0 <= y < height,
    ensures
        0 <= y * width,
        y * width + x < width * height,
        y * width <= width * height,
{
    assert(0 <= y * width) by (nonlinear_arith)
        requires
            0 <= y,
            0 < width,
    ;
    assert(y * width + width <= width * height) by (nonlinear_arith)
        requires
            0 <= y < height,
            0 < width,
    ;
}

/// Different cells have different indices.
pub proof fn lemma_index_injective(x1: int, y1: int, x2: int, y2: int, width: int)
    requires
        0 <= x1 < width,
        0 <= x2 < width,
        idx(x1, y1, width) == idx(x2, y2, width),
    ensures
        x1 == x2,
        y1 == y2,
{
    if y1 < y2 {
        assert(y1 * width + width <= y2 * width) by (nonlinear_arith)
            requires
                y1 < y2,
                0 < width,
        ;
    } else if y2 < y1 {
        assert(y2 * width + width <= y1 * width) by (nonlinear_arith)
            requires
                y2 < y1,
                0 < width,
        ;
    }
}

/// The offset that a segment of `den / 2` rows and `m` columns makes at an
/// odd half-row `k / den` stays within the segment.
pub proof fn lemma_quot_le(k: int, m: int, den: int)
    requires
        0 <= k < den,
        0 <= m,
    ensures
        0 <= (k * m) / den <= m,
        0 <= k * m,
{
    assert(0 <= k * m && k * m <= den * m) by (nonlinear_arith)
        requires
            0 <= k < den,
            0 <= m,
    ;
    vstd::arithmetic::div_mod::lemma_div_is_ordered(k * m, den * m, den);
    vstd::arithmetic::div_mod::lemma_div_by_multiple(m, den);
    assert(den * m == m * den) by (nonlinear_arith);
    vstd::arithmetic::div_mod::lemma_div_is_ordered(0, k * m, den);
}

} // verus!
