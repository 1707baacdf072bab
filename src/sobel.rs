use vstd::prelude::*;
use crate::framebuffer::{is_interior, Framebuffer};
use crate::grid::{cell_index, lemma_cell_index, lemma_index_coords};

verus! {

/// Sobel gradient of one pixel. `magnitude_sq` is the squared magnitude
/// `gx² + gy²`, or 0 where the pixel is on the border or was suppressed; the
/// direction `(gx, gy)` is kept either way.
#[derive(Clone, Copy, Debug, PartialEq, Eq, Structural)]
pub struct Gradient {
    pub gx: i32,
    pub gy: i32,
    pub magnitude_sq: u32,
}

/// Gradient direction folded to one of four axes, modulo 180°: the angle
/// `atan2(gy, gx)` rounded to the nearest multiple of 45°.
#[derive(Clone, Copy, Debug, PartialEq, Eq, Structural)]
pub enum Orientation {
    /// Near 0° or 180°: brightness changes along the row.
    Horizontal,
    /// Near 45° or -135°: `gx` and `gy` have the same sign.
    Rising,
    /// Near 90° or -90°: brightness changes along the column.
    Vertical,
    /// Near 135° or -45°: `gx` and `gy` have opposite signs.
    Falling,
}

/// Absolute value.
pub open spec fn abs_int(v: int) -> int {
    if v < 0 {
        -v
    } else {
        v
    }
}

/// `atan2(gy, gx)` lies within 22.5° of the row axis, that is
/// `|gy| < tan(22.5°) |gx|` with `tan(22.5°) = √2 - 1`, squared out; the zero
/// vector counts as horizontal, as `atan2(0, 0) = 0`.
pub open spec fn near_row_axis(gx: int, gy: int) -> bool {
    let ax = abs_int(gx);
    let ay = abs_int(gy);
    (gx == 0 && gy == 0) || (ax + ay) * (ax + ay) < 2 * ax * ax
}

/// `atan2(gy, gx)` lies within 22.5° of the column axis.
pub open spec fn near_column_axis(gx: int, gy: int) -> bool {
    let ax = abs_int(gx);
    let ay = abs_int(gy);
    (ax + ay) * (ax + ay) < 2 * ay * ay
}

/// The axis class of the direction `(gx, gy)`.
pub open spec fn orientation_of(gx: int, gy: int) -> Orientation {
    if near_row_axis(gx, gy) {
        Orientation::Horizontal
    } else if near_column_axis(gx, gy) {
        Orientation::Vertical
    } else if (gx > 0) == (gy > 0) {
        Orientation::Rising
    } else {
        Orientation::Falling
    }
}

/// Index step from a pixel to the neighbour it is compared with under
/// non-maximum suppression; the other neighbour is the opposite step.
pub open spec fn suppression_step(o: Orientation, w: int) -> int {
    match o {
        Orientation::Horizontal => 1,
        Orientation::Rising => 1 - w,
        Orientation::Vertical => -w,
        Orientation::Falling => w + 1,
    }
}

/// Horizontal Sobel response at interior position `i`.
pub open spec fn sobel_x(lum: Seq<u8>, w: int, i: int) -> int {
    (lum[i - w + 1] + 2 * lum[i + 1] + lum[i + w + 1]) - (lum[i - w - 1] + 2 * lum[i - 1] + lum[i
        + w - 1])
}

/// Vertical Sobel response at interior position `i`.
pub open spec fn sobel_y(lum: Seq<u8>, w: int, i: int) -> int {
    (lum[i + w - 1] + 2 * lum[i + w] + lum[i + w + 1]) - (lum[i - w - 1] + 2 * lum[i - w] + lum[i
        - w + 1])
}

/// The zero gradient of border pixels.
pub open spec fn zero_gradient() -> Gradient {
    Gradient { gx: 0, gy: 0, magnitude_sq: 0 }
}

/// Gradient at position `i` before suppression.
pub open spec fn raw_gradient(lum: Seq<u8>, w: int, h: int, i: int) -> Gradient {
    if is_interior(w, h, i) {
        let gx = sobel_x(lum, w, i);
        let gy = sobel_y(lum, w, i);
        Gradient { gx: gx as i32, gy: gy as i32, magnitude_sq: (gx * gx + gy * gy) as u32 }
    } else {
        zero_gradient()
    }
}

/// Gradients of a whole `w`×`h` luminance buffer, before suppression.
pub open spec fn raw_field(lum: Seq<u8>, w: int, h: int) -> Seq<Gradient> {
    Seq::new(lum.len(), |i: int| raw_gradient(lum, w, h, i))
}

/// Gradient at position `i` after non-maximum suppression of `raw`: an
/// interior pixel keeps its magnitude only if it is at least that of both
/// neighbours along its orientation.
pub open spec fn suppressed_at(raw: Seq<Gradient>, w: int, h: int, i: int) -> Gradient {
    if is_interior(w, h, i) {
        let g = raw[i];
        let d = suppression_step(orientation_of(g.gx as int, g.gy as int), w);
        if g.magnitude_sq >= raw[i - d].magnitude_sq && g.magnitude_sq >= raw[i + d].magnitude_sq {
            g
        } else {
            Gradient { gx: g.gx, gy: g.gy, magnitude_sq: 0 }
        }
    } else {
        zero_gradient()
    }
}

/// Non-maximum suppression over a whole field.
pub open spec fn suppressed_field(raw: Seq<Gradient>, w: int, h: int) -> Seq<Gradient> {
    Seq::new(raw.len(), |i: int| suppressed_at(raw, w, h, i))
}

/// The thinned gradient field of a luminance buffer.
pub open spec fn gradient_field(lum: Seq<u8>, w: int, h: int) -> Seq<Gradient> {
    suppressed_field(raw_field(lum, w, h), w, h)
}

/// An interior position has all eight neighbours inside the grid.
pub proof fn lemma_interior_neighbors(w: int, h: int, i: int)
    requires
        0 <= i < w * h,
        is_interior(w, h, i),
    ensures
        i - w - 1 >= 0,
        i + w + 1 < w * h,
{
    lemma_index_coords(w, h, i);
    let x = i % w;
    let y = i / w;
    assert(i - w - 1 >= 0 && i + w + 1 < w * h) by (nonlinear_arith)
        requires
            i == y * w + x,
            1 <= x < w - 1,
            1 <= y < h - 1,
    ;
}

/// The axis class of `(gx, gy)`, computed exactly on integers.
pub fn orientation(gx: i32, gy: i32) -> (o: Orientation)
    ensures
        o == orientation_of(gx as int, gy as int),
{
    let ax: i128 = if gx < 0 {
        -(gx as i128)
    } else {
        gx as i128
    };
    let ay: i128 = if gy < 0 {
        -(gy as i128)
    } else {
        gy as i128
    };
    assert((ax + ay) * (ax + ay) <= 0x10_0000_0000_0000_0000 && 2 * ax * ax
        <= 0x10_0000_0000_0000_0000 && 2 * ay * ay <= 0x10_0000_0000_0000_0000)
        by (nonlinear_arith)
        requires
            0 <= ax <= 0x8000_0000,
            0 <= ay <= 0x8000_0000,
    ;
    let s = (ax + ay) * (ax + ay);
    if (gx == 0 && gy == 0) || s < 2 * ax * ax {
        Orientation::Horizontal
    } else if s < 2 * ay * ay {
        Orientation::Vertical
    } else if (gx > 0) == (gy > 0) {
        Orientation::Rising
    } else {
        Orientation::Falling
    }
}

/// Sobel responses at an interior position of a `w`-wide buffer.
fn sobel_at(lum: &Vec<u8>, w: usize, h: usize, i: usize) -> (g: Gradient)
    requires
        lum@.len() == w * h,
        w * h <= usize::MAX,
        0 <= i < w * h,
        is_interior(w as int, h as int, i as int),
    ensures
        g == raw_gradient(lum@, w as int, h as int, i as int),
{
    proof {
        lemma_interior_neighbors(w as int, h as int, i as int);
    }
    let nw = lum[i - w - 1] as i32;
    let n = lum[i - w] as i32;
    let ne = lum[i - w + 1] as i32;
    let west = lum[i - 1] as i32;
    let east = lum[i + 1] as i32;
    let sw = lum[i + w - 1] as i32;
    let s = lum[i + w] as i32;
    let se = lum[i + w + 1] as i32;
    let gx = (ne + 2 * east + se) - (nw + 2 * west + sw);
    let gy = (sw + 2 * s + se) - (nw + 2 * n + ne);
    assert(gx * gx <= 1040400 && gy * gy <= 1040400 && gx * gx >= 0 && gy * gy >= 0)
        by (nonlinear_arith)
        requires
            -1020 <= gx <= 1020,
            -1020 <= gy <= 1020,
    ;
    let m = (gx * gx + gy * gy) as u32;
    Gradient { gx, gy, magnitude_sq: m }
}

/// Sobel gradients of the luminance buffer, thinned by non-maximum
/// suppression. Border pixels get the zero gradient.
pub fn compute_gradients(fb: &Framebuffer) -> (r: Vec<Gradient>)
    requires
        fb.wf(),
    ensures
        r@ == gradient_field(fb.luma(), fb.width as int, fb.height as int),
{
    let w = fb.width;
    let h = fb.height;
    let lum = fb.brightness();
    let n = lum.len();
    let mut raw: Vec<Gradient> = Vec::new();
    let mut i: usize = 0;
    while i < n
        invariant
            n == lum@.len(),
            n == w * h,
            lum@ == fb.luma(),
            i <= n,
            raw@.len() == i,
            forall|k: int| 0 <= k < i ==> raw@[k] == raw_gradient(lum@, w as int, h as int, k),
        decreases n - i,
    {
        proof {
            lemma_index_coords(w as int, h as int, i as int);
        }
        let x = i % w;
        let y = i / w;
        if 1 <= x && x + 1 < w && 1 <= y && y + 1 < h {
            let g = sobel_at(lum, w, h, i);
            raw.push(g);
        } else {
            raw.push(Gradient { gx: 0, gy: 0, magnitude_sq: 0 });
        }
        i = i + 1;
    }
    assert(raw@ =~= raw_field(fb.luma(), w as int, h as int));
    apply_non_maximum_suppression(&raw, w, h)
}

/// Thins a raw gradient field: an interior pixel keeps its magnitude only
/// where it is at least that of both neighbours along its orientation (ties
/// are kept); border pixels get the zero gradient. Every pixel reads the
/// field as it was before the pass.
pub fn apply_non_maximum_suppression(gradients: &Vec<Gradient>, width: usize, height: usize) -> (r:
    Vec<Gradient>)
    requires
        gradients@.len() == width * height,
    ensures
        r@ == suppressed_field(gradients@, width as int, height as int),
{
    let w = width;
    let h = height;
    let n = gradients.len();
    let mut out: Vec<Gradient> = Vec::new();
    let mut i: usize = 0;
    while i < n
        invariant
            n == gradients@.len(),
            n == w * h,
            i <= n,
            out@.len() == i,
            forall|k: int|
                0 <= k < i ==> out@[k] == suppressed_at(gradients@, w as int, h as int, k),
        decreases n - i,
    {
        proof {
            lemma_index_coords(w as int, h as int, i as int);
        }
        let x = i % w;
        let y = i / w;
        if 1 <= x && x + 1 < w && 1 <= y && y + 1 < h {
            proof {
                lemma_interior_neighbors(w as int, h as int, i as int);
            }
            let g = gradients[i];
            let (prev, next) = match orientation(g.gx, g.gy) {
                Orientation::Horizontal => (gradients[i - 1], gradients[i + 1]),
                Orientation::Rising => (gradients[i + w - 1], gradients[i + 1 - w]),
                Orientation::Vertical => (gradients[i + w], gradients[i - w]),
                Orientation::Falling => (gradients[i - w - 1], gradients[i + w + 1]),
            };
            if g.magnitude_sq >= prev.magnitude_sq && g.magnitude_sq >= next.magnitude_sq {
                out.push(g);
            } else {
                out.push(Gradient { gx: g.gx, gy: g.gy, magnitude_sq: 0 });
            }
        } else {
            out.push(Gradient { gx: 0, gy: 0, magnitude_sq: 0 });
        }
        i = i + 1;
    }
    assert(out@ =~= suppressed_field(gradients@, w as int, h as int));
    out
}

/// On a flat luminance buffer every gradient, raw or thinned, has magnitude
/// zero.
pub proof fn lemma_flat_has_no_edges(lum: Seq<u8>, w: int, h: int, c: u8)
    requires
        lum.len() == w * h,
        forall|k: int| 0 <= k < lum.len() ==> lum[k] == c,
    ensures
        forall|i: int|
            0 <= i < lum.len() ==> (#[trigger] raw_field(lum, w, h)[i]).magnitude_sq == 0,
        forall|i: int|
            0 <= i < lum.len() ==> (#[trigger] gradient_field(lum, w, h)[i]).magnitude_sq == 0,
{
    let raw = raw_field(lum, w, h);
    assert forall|i: int| 0 <= i < lum.len() implies (#[trigger] raw[i]).magnitude_sq == 0 by {
        if is_interior(w, h, i) {
            lemma_interior_neighbors(w, h, i);
            assert(sobel_x(lum, w, i) == 0);
            assert(sobel_y(lum, w, i) == 0);
        }
    }
    assert forall|i: int|
        0 <= i < lum.len() implies (#[trigger] gradient_field(lum, w, h)[i]).magnitude_sq == 0 by {
        assert(gradient_field(lum, w, h)[i] == suppressed_at(raw, w, h, i));
    }
}

/// A neighbour of an interior position lies in the grid, in the column next
/// to it (or its own).
proof fn lemma_offset_column(w: int, h: int, i: int, dx: int, dy: int)
    requires
        0 <= i < w * h,
        is_interior(w, h, i),
        -1 <= dx <= 1,
        -1 <= dy <= 1,
    ensures
        0 <= i + dy * w + dx < w * h,
        (i + dy * w + dx) % w == i % w + dx,
{
    lemma_index_coords(w, h, i);
    let x = i % w;
    let y = i / w;
    lemma_cell_index(w, h, x + dx, y + dy);
    assert(cell_index(w, x + dx, y + dy) == i + dy * w + dx) by (nonlinear_arith)
        requires
            i == y * w + x,
            cell_index(w, x + dx, y + dy) == (y + dy) * w + (x + dx),
    ;
}

/// Luminance of a buffer whose left half (columns below `w / 2`) is black
/// and whose right half is white.
pub open spec fn half_split(w: int, k: int) -> u8 {
    if k % w < w / 2 {
        0
    } else {
        255
    }
}

/// The gradient that a black-to-white vertical edge gives on its two
/// boundary columns: horizontal, angle 0, the largest magnitude possible.
pub open spec fn full_edge() -> Gradient {
    Gradient { gx: 1020, gy: 0, magnitude_sq: 1040400 }
}

/// A single vertical edge, black left half and white right half: on every
/// interior row the gradient is `(1020, 0)` (angle 0, the maximal magnitude)
/// exactly on the two boundary columns `w/2 - 1` and `w/2`, both kept by
/// non-maximum suppression as they tie; every other pixel has the zero
/// gradient.
pub proof fn lemma_vertical_edge(lum: Seq<u8>, w: int, h: int)
    requires
        w >= 4,
        h >= 3,
        lum.len() == w * h,
        forall|k: int| 0 <= k < lum.len() ==> lum[k] == half_split(w, k),
    ensures
        forall|i: int|
            0 <= i < lum.len() ==> #[trigger] gradient_field(lum, w, h)[i] == if is_interior(
                w,
                h,
                i,
            ) && (i % w == w / 2 - 1 || i % w == w / 2) {
                full_edge()
            } else {
                zero_gradient()
            },
{
    let raw = raw_field(lum, w, h);
    assert forall|i: int| 0 <= i < lum.len() implies #[trigger] raw[i] == if is_interior(w, h, i)
        && (i % w == w / 2 - 1 || i % w == w / 2) {
        full_edge()
    } else {
        zero_gradient()
    } by {
        if is_interior(w, h, i) {
            let x = i % w;
            lemma_offset_column(w, h, i, -1, -1);
            lemma_offset_column(w, h, i, 0, -1);
            lemma_offset_column(w, h, i, 1, -1);
            lemma_offset_column(w, h, i, -1, 0);
            lemma_offset_column(w, h, i, 1, 0);
            lemma_offset_column(w, h, i, -1, 1);
            lemma_offset_column(w, h, i, 0, 1);
            lemma_offset_column(w, h, i, 1, 1);
            assert(lum[i - w - 1] == half_split(w, i - w - 1));
            assert(lum[i - w] == half_split(w, i - w));
            assert(lum[i - w + 1] == half_split(w, i - w + 1));
            assert(lum[i - 1] == half_split(w, i - 1));
            assert(lum[i + 1] == half_split(w, i + 1));
            assert(lum[i + w - 1] == half_split(w, i + w - 1));
            assert(lum[i + w] == half_split(w, i + w));
            assert(lum[i + w + 1] == half_split(w, i + w + 1));
            assert(sobel_y(lum, w, i) == 0);
            if x == w / 2 - 1 || x == w / 2 {
                assert(sobel_x(lum, w, i) == 1020);
            } else {
                assert(sobel_x(lum, w, i) == 0);
            }
        }
    }
    assert(1020int * 1020 < 2 * 1020 * 1020) by (nonlinear_arith);
    assert forall|i: int| 0 <= i < lum.len() implies #[trigger] gradient_field(lum, w, h)[i]
        == if is_interior(w, h, i) && (i % w == w / 2 - 1 || i % w == w / 2) {
        full_edge()
    } else {
        zero_gradient()
    } by {
        assert(gradient_field(lum, w, h)[i] == suppressed_at(raw, w, h, i));
        if is_interior(w, h, i) {
            lemma_offset_column(w, h, i, -1, 0);
            lemma_offset_column(w, h, i, 1, 0);
            assert(raw[i - 1].magnitude_sq <= 1040400);
            assert(raw[i + 1].magnitude_sq <= 1040400);
        }
    }
}

} // verus!
