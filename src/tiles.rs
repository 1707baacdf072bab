use vstd::prelude::*;
use vstd::arithmetic::div_mod::{lemma_fundamental_div_mod, lemma_fundamental_div_mod_converse};
use vstd::arithmetic::mul::lemma_mul_inequality;

verus! {

/// Side of the square tiles a frame is split into for parallel work.
pub const TILE_SIZE: usize = 8;

/// Number of tile columns over a width of `w` pixels.
pub open spec fn tiles_across(w: int) -> int {
    (w + 7) / 8
}

/// Number of tile rows over a height of `h` pixels.
pub open spec fn tiles_down(h: int) -> int {
    (h + 7) / 8
}

/// Number of tiles that cover a `w`×`h` frame.
pub open spec fn tile_count(w: int, h: int) -> int {
    tiles_across(w) * tiles_down(h)
}

/// Top-left pixel of tile `t`; tiles are numbered row by row.
pub open spec fn tile_origin(w: int, t: int) -> (int, int) {
    ((t % tiles_across(w)) * 8, (t / tiles_across(w)) * 8)
}

/// Extent of a tile that starts at `start` along an axis of `total` pixels:
/// a full tile, or what is left before the edge.
pub open spec fn tile_span(start: int, total: int) -> int {
    if start + 8 <= total {
        8
    } else {
        total - start
    }
}

/// Tile that holds pixel `(x, y)`.
pub open spec fn tile_of(w: int, x: int, y: int) -> int {
    (y / 8) * tiles_across(w) + x / 8
}

/// Pixel `(x, y)` lies in the rectangle of tile `t`.
pub open spec fn tile_contains(w: int, t: int, x: int, y: int) -> bool {
    let (sx, sy) = tile_origin(w, t);
    sx <= x < sx + 8 && sy <= y < sy + 8
}

/// The tiles partition the frame: each pixel lies in exactly one tile, the
/// one `tile_of` names, so merging tile results in any order gives one image.
pub proof fn lemma_tiles_partition(w: int, h: int, x: int, y: int)
    requires
        0 <= x < w,
        0 <= y < h,
    ensures
        0 <= tile_of(w, x, y) < tile_count(w, h),
        tile_contains(w, tile_of(w, x, y), x, y),
        forall|t: int| 0 <= t < tile_count(w, h) && tile_contains(w, t, x, y) ==> t == tile_of(w, x, y),
{
    let a = tiles_across(w);
    let d = tiles_down(h);
    let t0 = tile_of(w, x, y);
    assert(x / 8 < a && y / 8 < d);
    lemma_fundamental_div_mod_converse(t0, a, y / 8, x / 8);
    lemma_mul_inequality(y / 8 + 1, d, a);
    assert((y / 8 + 1) * a == (y / 8) * a + a) by (nonlinear_arith);
    assert(d * a == a * d) by (nonlinear_arith);
    assert forall|t: int| 0 <= t < tile_count(w, h) && tile_contains(w, t, x, y) implies t == t0 by {
        lemma_fundamental_div_mod(t, a);
        assert(t % a == x / 8);
        assert(t / a == y / 8);
        assert(a * (t / a) == (t / a) * a) by (nonlinear_arith);
    }
}

/// Every tile lies inside the frame, with a positive extent on both axes.
pub proof fn lemma_tile_inside(w: int, h: int, t: int)
    requires
        0 <= w,
        0 <= h,
        0 <= t < tile_count(w, h),
    ensures
        0 <= tile_origin(w, t).0 < w,
        0 <= tile_origin(w, t).1 < h,
        0 < tile_span(tile_origin(w, t).0, w) <= 8,
        0 < tile_span(tile_origin(w, t).1, h) <= 8,
{
    let a = tiles_across(w);
    let d = tiles_down(h);
    assert(a > 0 && d > 0) by (nonlinear_arith)
        requires
            0 <= t < a * d,
            a >= 0,
            d >= 0,
    ;
    lemma_fundamental_div_mod(t, a);
    assert(0 <= t % a < a);
    assert(t / a >= 0) by (nonlinear_arith)
        requires
            t >= 0,
            a > 0,
    ;
    if t / a >= d {
        lemma_mul_inequality(d, t / a, a);
        assert(a * (t / a) == (t / a) * a && d * a == a * d) by (nonlinear_arith);
    }
}

/// Top-left corners of the tiles of a `width`×`height` frame, row by row.
pub fn tile_origins(width: usize, height: usize) -> (r: Vec<(usize, usize)>)
    ensures
        r@.len() == tile_count(width as int, height as int),
        forall|t: int|
            0 <= t < r@.len() ==> (r@[t].0 as int, r@[t].1 as int) == tile_origin(width as int, t),
{
    let across = width / TILE_SIZE + if width % TILE_SIZE != 0 {
        1usize
    } else {
        0usize
    };
    let down = height / TILE_SIZE + if height % TILE_SIZE != 0 {
        1usize
    } else {
        0usize
    };
    assert(across == tiles_across(width as int));
    assert(down == tiles_down(height as int));
    let mut out: Vec<(usize, usize)> = Vec::new();
    let mut ty: usize = 0;
    while ty < down
        invariant
            ty <= down,
            across == tiles_across(width as int),
            down == tiles_down(height as int),
            out@.len() == ty * across,
            forall|t: int|
                0 <= t < out@.len() ==> (out@[t].0 as int, out@[t].1 as int) == tile_origin(
                    width as int,
                    t,
                ),
        decreases down - ty,
    {
        let mut tx: usize = 0;
        while tx < across
            invariant
                tx <= across,
                ty < down,
                across == tiles_across(width as int),
                down == tiles_down(height as int),
                out@.len() == ty * across + tx,
                forall|t: int|
                    0 <= t < out@.len() ==> (out@[t].0 as int, out@[t].1 as int) == tile_origin(
                        width as int,
                        t,
                    ),
            decreases across - tx,
        {
            let ghost k = ty * across + tx;
            proof {
                lemma_fundamental_div_mod_converse(k, across as int, ty as int, tx as int);
            }
            out.push((tx * TILE_SIZE, ty * TILE_SIZE));
            tx = tx + 1;
        }
        assert(ty * across + across == (ty + 1) * across) by (nonlinear_arith);
        ty = ty + 1;
    }
    assert(down * across == tile_count(width as int, height as int)) by (nonlinear_arith)
        requires
            across == tiles_across(width as int),
            down == tiles_down(height as int),
    ;
    out
}

} // verus!
