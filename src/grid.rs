use vstd::prelude::*;
use vstd::arithmetic::div_mod::{lemma_fundamental_div_mod, lemma_fundamental_div_mod_converse};
use vstd::arithmetic::mul::{lemma_mul_inequality, lemma_mul_is_distributive_add_other_way};

verus! {

/// Row-major position of cell `(x, y)` in a grid `w` cells wide.
pub open spec fn cell_index(w: int, x: int, y: int) -> int {
    y * w + x
}

/// A cell of a `w`×`h` grid lies at a valid position, and its position gives
/// its coordinates back.
pub proof fn lemma_cell_index(w: int, h: int, x: int, y: int)
    requires
        0 <= x < w,
        0 <= y < h,
    ensures
        0 <= cell_index(w, x, y) < w * h,
        cell_index(w, x, y) % w == x,
        cell_index(w, x, y) / w == y,
{
    lemma_fundamental_div_mod_converse(y * w + x, w, y, x);
    lemma_mul_inequality(y + 1, h, w);
    lemma_mul_is_distributive_add_other_way(w, y, 1);
    assert(0 <= y * w) by (nonlinear_arith)
        requires
            0 <= y,
            0 <= w,
    ;
}

/// The coordinates of a position in a `w`×`h` grid lie inside it, and give
/// the position back.
pub proof fn lemma_index_coords(w: int, h: int, i: int)
    requires
        0 <= i < w * h,
        0 < w,
    ensures
        0 <= i % w < w,
        0 <= i / w < h,
        i == cell_index(w, i % w, i / w),
{
    lemma_fundamental_div_mod(i, w);
    assert(0 <= i % w < w);
    assert(i / w >= 0) by (nonlinear_arith)
        requires
            0 <= i,
            0 < w,
    ;
    if i / w >= h {
        lemma_mul_inequality(h, i / w, w);
        assert(h * w == w * h) by (nonlinear_arith);
        assert(w * (i / w) == (i / w) * w) by (nonlinear_arith);
    }
    assert(w * (i / w) == (i / w) * w) by (nonlinear_arith);
}

} // verus!
