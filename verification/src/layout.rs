//! Row-major layout: cell `(r, c)` of a grid with `width` columns sits at
//! offset `r * width + c`.

use vstd::prelude::*;
use vstd::arithmetic::div_mod::{lemma_fundamental_div_mod, lemma_fundamental_div_mod_converse};

verus! {

/// The offset of cell `(r, c)` in a row-major grid of `width` columns
/// lies below `height * width`, and row and column are recovered from it
/// by division and remainder.
pub proof fn lemma_cell(r: int, c: int, height: int, width: int)
    requires
        0 <= r < height,
        0 <= c < width,
    ensures
        0 <= r * width + c < height * width,
        (r * width + c) / width == r,
        (r * width + c) % width == c,
{
    assert(0 <= r * width + c < height * width) by (nonlinear_arith)
        requires
            0 <= r < height,
            0 <= c < width,
    ;
    lemma_fundamental_div_mod_converse(r * width + c, width, r, c);
}

/// Every offset below `height * width` is the offset of the cell given by
/// its quotient and remainder by `width`.
pub proof fn lemma_offset(k: int, height: int, width: int)
    requires
        0 <= height,
        0 <= width,
        0 <= k < height * width,
    ensures
        0 <= k / width < height,
        0 <= k % width < width,
        k == (k / width) * width + k % width,
{
    assert(width > 0) by (nonlinear_arith)
        requires
            0 <= k < height * width,
            0 <= height,
            0 <= width,
    ;
    lemma_fundamental_div_mod(k, width);
    assert(k == width * (k / width) + k % width);
    assert(0 <= k % width < width);
    assert((k / width) * width == width * (k / width)) by (nonlinear_arith);
    assert(0 <= k / width < height) by (nonlinear_arith)
        requires
            0 <= k < height * width,
            k == (k / width) * width + k % width,
            0 <= k % width < width,
            width > 0,
    ;
}

} // verus!
