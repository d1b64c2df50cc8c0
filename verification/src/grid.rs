//! Row-major indexing of a rectangular grid: cell `(x, y)` of a grid that is
//! `w` cells wide lives at index `x + y * w`.

use vstd::arithmetic::div_mod::lemma_fundamental_div_mod;
use vstd::arithmetic::div_mod::lemma_fundamental_div_mod_converse;
use vstd::prelude::*;

verus! {

/// The index of an in-range cell is in range, and division and remainder by
/// the width give its row and column back.
pub proof fn lemma_cell_index(x: int, y: int, w: int, h: int)
    requires
        0 <= x < w,
        0 <= y < h,
    ensures
        0 <= y * w,
        0 <= x + y * w < w * h,
        (x + y * w) % w == x,
        (x + y * w) / w == y,
{
    assert(0 <= y * w && y * w + w <= w * h) by (nonlinear_arith)
        requires
            0 <= y < h,
            0 < w,
    ;
    lemma_fundamental_div_mod_converse(x + y * w, w, y, x);
}

/// Every index of a `w * h` grid splits into a column below `w` and a row
/// below `h`.
pub proof fn lemma_index_cell(d: int, w: int, h: int)
    requires
        0 < w,
        0 <= h,
        0 <= d < w * h,
    ensures
        0 <= d % w < w,
        0 <= d / w < h,
        d == d % w + (d / w) * w,
{
    lemma_fundamental_div_mod(d, w);
    let q = d / w;
    let r = d % w;
    assert(0 <= r < w);
    assert(w * q == q * w) by (nonlinear_arith);
    assert(0 <= q < h) by (nonlinear_arith)
        requires
            0 < w,
            0 <= r < w,
            0 <= d < w * h,
            d == q * w + r,
    ;
}

/// A grid with both sides at most 255 has at most 65025 cells.
pub proof fn lemma_area_bound(w: int, h: int)
    requires
        0 <= w <= 255,
        0 <= h <= 255,
    ensures
        0 <= w * h <= 65025,
{
    assert(0 <= w * h <= 65025) by (nonlinear_arith)
        requires
            0 <= w <= 255,
            0 <= h <= 255,
    ;
}

/// The number of whole rows in `w * h` cells of width `w` is `h`.
pub proof fn lemma_rows(w: int, h: int)
    requires
        0 < w,
        0 <= h,
    ensures
        (w * h) / w == h,
        (w * h) % w == 0,
{
    assert(w * h == h * w + 0) by (nonlinear_arith);
    lemma_fundamental_div_mod_converse(w * h, w, h, 0);
}

} // verus!
