use vstd::prelude::*;

verus! {

/// A position on a grid: a column `x` and a row `y`, counted from the top
/// left corner.
#[derive(Clone, Copy, PartialEq, Eq, Debug, Structural)]
pub struct Cell {
    pub x: usize,
    pub y: usize,
}

/// The cell at column `x` and row `y`.
pub open spec fn cell_of(x: int, y: int) -> Cell {
    Cell { x: x as usize, y: y as usize }
}

/// The place of cell `(x, y)` in a row-major array of rows `w` wide.
pub open spec fn flat_index(x: int, y: int, w: int) -> int {
    y * w + x
}

/// A cell of a `w` by `h` grid has its place inside the array.
pub proof fn lemma_flat_index_bounds(x: int, y: int, w: int, h: int)
    requires
        0 <= x < w,
        0 <= y < h,
    ensures
        0 <= flat_index(x, y, w) < w * h,
        flat_index(x, y, w) < h * w,
        y * w <= flat_index(x, y, w),
{
    assert(0 <= y * w + x < w * h && y * w + x < h * w) by (nonlinear_arith)
        requires
            0 <= x < w,
            0 <= y < h,
    ;
}

/// Two cells of a grid rows `w` wide share a place only when they are the
/// same cell.
pub proof fn lemma_flat_index_injective(x1: int, y1: int, x2: int, y2: int, w: int)
    requires
        0 <= x1 < w,
        0 <= x2 < w,
        0 <= y1,
        0 <= y2,
        flat_index(x1, y1, w) == flat_index(x2, y2, w),
    ensures
        x1 == x2,
        y1 == y2,
{
    assert(y1 == y2) by (nonlinear_arith)
        requires
            0 <= x1 < w,
            0 <= x2 < w,
            0 <= y1,
            0 <= y2,
            y1 * w + x1 == y2 * w + x2,
    ;
}

} // verus!
