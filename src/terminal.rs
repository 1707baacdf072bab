use vstd::prelude::*;
use crate::ascii::{
    angle_to_ascii, brightness_to_ascii, edge_glyph_of, ramp_glyph, ramp_index,
};
use crate::framebuffer::{
    contrast_stage, dither_stage, dithered, dithered_pixel, luma_stage, Framebuffer,
};
use crate::grid::{cell_index, lemma_index_coords};
use crate::palette::{
    color_pair_of, cube_colors, get_closest_color_pair, nearest_cube_color, nearest_index, Rgb,
};
use crate::pixel::Pixel;
use crate::sobel::{gradient_field, lemma_flat_has_no_edges, orientation_of, Gradient};
use crate::terminalbuffer::{Cell, TerminalBuffer};

verus! {

/// Squared gradient magnitude above which a pixel is drawn as an edge: a
/// magnitude above 40.
pub const EDGE_THRESHOLD_SQ: u32 = 1600;

/// Neighbour `k` (0 to 8, row by row) of `(x, y)` lies in the `w`×`h` grid.
pub open spec fn neighbor_in(w: int, h: int, x: int, y: int, k: int) -> bool {
    let nx = x + k % 3 - 1;
    let ny = y + k / 3 - 1;
    0 <= nx < w && 0 <= ny < h
}

/// Neighbour `k` of `(x, y)`.
pub open spec fn neighbor_at(data: Seq<Pixel>, w: int, x: int, y: int, k: int) -> Pixel {
    data[cell_index(w, x + k % 3 - 1, y + k / 3 - 1)]
}

/// Channel `c` of a pixel: 0 red, 1 green, 2 blue.
pub open spec fn channel_of(p: Pixel, c: int) -> int {
    if c == 0 {
        p.r as int
    } else if c == 1 {
        p.g as int
    } else {
        p.b as int
    }
}

/// Sum of channel `c` over the first `n` neighbours of `(x, y)` that lie in
/// the grid, the pixel itself included.
pub open spec fn neighborhood_sum(
    data: Seq<Pixel>,
    w: int,
    h: int,
    x: int,
    y: int,
    c: int,
    n: int,
) -> int
    decreases n,
{
    if n <= 0 {
        0
    } else {
        neighborhood_sum(data, w, h, x, y, c, n - 1) + if neighbor_in(w, h, x, y, n - 1) {
            channel_of(neighbor_at(data, w, x, y, n - 1), c)
        } else {
            0
        }
    }
}

/// Number of the first `n` neighbours of `(x, y)` that lie in the grid.
pub open spec fn neighborhood_count(w: int, h: int, x: int, y: int, n: int) -> int
    decreases n,
{
    if n <= 0 {
        0
    } else {
        neighborhood_count(w, h, x, y, n - 1) + if neighbor_in(w, h, x, y, n - 1) {
            1int
        } else {
            0int
        }
    }
}

/// Mean colour, truncated, of the 3×3 neighbourhood of `(x, y)` clipped to
/// the grid.
pub open spec fn neighborhood_mean(data: Seq<Pixel>, w: int, h: int, x: int, y: int) -> Rgb {
    let n = neighborhood_count(w, h, x, y, 9);
    (
        (neighborhood_sum(data, w, h, x, y, 0, 9) / n) as u8,
        (neighborhood_sum(data, w, h, x, y, 1, 9) / n) as u8,
        (neighborhood_sum(data, w, h, x, y, 2, 9) / n) as u8,
    )
}

/// The cell drawn for position `i`. An edge pixel (squared magnitude above
/// the threshold) gets the glyph of its gradient's orientation and the mean
/// colour of its neighbourhood; any other pixel gets the ramp glyph of its
/// luminance and its own colour. On a palette display the colour resolves to
/// the nearest cube colour and its pair; on a true-colour display it is kept
/// as it is, with pair 0.
pub open spec fn cell_for(
    data: Seq<Pixel>,
    lum: Seq<u8>,
    grads: Seq<Gradient>,
    w: int,
    h: int,
    i: int,
    true_color: bool,
) -> Cell {
    let g = grads[i];
    let edge = g.magnitude_sq > EDGE_THRESHOLD_SQ;
    let glyph = if edge {
        edge_glyph_of(orientation_of(g.gx as int, g.gy as int))
    } else {
        ramp_glyph(ramp_index(lum[i] as int, false))
    };
    let c: Rgb = if edge {
        neighborhood_mean(data, w, h, i % w, i / w)
    } else {
        (data[i].r, data[i].g, data[i].b)
    };
    if true_color {
        Cell { glyph, color_pair: 0, color: c }
    } else {
        Cell {
            glyph,
            color_pair: color_pair_of(c.0, c.1, c.2) as i16,
            color: cube_colors()[nearest_index(cube_colors(), c)],
        }
    }
}

/// The cells of a whole frame.
pub open spec fn composed_cells(
    data: Seq<Pixel>,
    lum: Seq<u8>,
    grads: Seq<Gradient>,
    w: int,
    h: int,
    true_color: bool,
) -> Seq<Cell> {
    Seq::new(data.len(), |i: int| cell_for(data, lum, grads, w, h, i, true_color))
}

/// The neighbourhood count lies between 1 (once the pixel itself is
/// counted) and `n`, and each channel sum is at most 255 per counted pixel.
proof fn lemma_neighborhood_bounds(data: Seq<Pixel>, w: int, h: int, x: int, y: int, n: int)
    requires
        0 <= n <= 9,
        0 <= x < w,
        0 <= y < h,
    ensures
        0 <= neighborhood_count(w, h, x, y, n) <= n,
        n > 4 ==> neighborhood_count(w, h, x, y, n) >= 1,
        forall|c: int|
            0 <= #[trigger] neighborhood_sum(data, w, h, x, y, c, n) <= 255 * neighborhood_count(
                w,
                h,
                x,
                y,
                n,
            ),
    decreases n,
{
    if n > 0 {
        lemma_neighborhood_bounds(data, w, h, x, y, n - 1);
        assert forall|c: int|
            0 <= #[trigger] neighborhood_sum(data, w, h, x, y, c, n) <= 255 * neighborhood_count(
                w,
                h,
                x,
                y,
                n,
            ) by {
            assert(0 <= neighborhood_sum(data, w, h, x, y, c, n - 1) <= 255 * neighborhood_count(
                w,
                h,
                x,
                y,
                n - 1,
            ));
            let p = neighbor_at(data, w, x, y, n - 1);
            assert(0 <= channel_of(p, c) <= 255);
        }
    }
}

/// Mean colour of the 3×3 neighbourhood of `(x, y)`, clipped to the frame,
/// each channel truncated.
pub fn average_neighbor_colors(fb: &Framebuffer, x: usize, y: usize) -> (c: Rgb)
    requires
        fb.wf(),
        x < fb.width,
        y < fb.height,
    ensures
        c == neighborhood_mean(fb.data@, fb.width as int, fb.height as int, x as int, y as int),
{
    let ghost w = fb.width as int;
    let ghost h = fb.height as int;
    let mut r_sum: u32 = 0;
    let mut g_sum: u32 = 0;
    let mut b_sum: u32 = 0;
    let mut count: u32 = 0;
    let mut k: usize = 0;
    while k < 9
        invariant
            fb.wf(),
            w == fb.width,
            h == fb.height,
            x < fb.width,
            y < fb.height,
            k <= 9,
            r_sum == neighborhood_sum(fb.data@, w, h, x as int, y as int, 0, k as int),
            g_sum == neighborhood_sum(fb.data@, w, h, x as int, y as int, 1, k as int),
            b_sum == neighborhood_sum(fb.data@, w, h, x as int, y as int, 2, k as int),
            count == neighborhood_count(w, h, x as int, y as int, k as int),
        decreases 9 - k,
    {
        proof {
            lemma_neighborhood_bounds(fb.data@, w, h, x as int, y as int, k as int);
        }
        let dx = k % 3;
        let dy = k / 3;
        let x_in = if dx == 0 {
            x >= 1
        } else {
            dx == 1 || x + 1 < fb.width
        };
        let y_in = if dy == 0 {
            y >= 1
        } else {
            dy == 1 || y + 1 < fb.height
        };
        if x_in && y_in {
            let nx = x + dx - 1;
            let ny = y + dy - 1;
            let p = fb.get_pixel(nx, ny);
            r_sum = r_sum + p.r as u32;
            g_sum = g_sum + p.g as u32;
            b_sum = b_sum + p.b as u32;
            count = count + 1;
        }
        k = k + 1;
    }
    proof {
        lemma_neighborhood_bounds(fb.data@, w, h, x as int, y as int, 9);
        assert(r_sum / count <= 255) by (nonlinear_arith)
            requires
                r_sum <= 255 * count,
                count >= 1,
        ;
        assert(g_sum / count <= 255) by (nonlinear_arith)
            requires
                g_sum <= 255 * count,
                count >= 1,
        ;
        assert(b_sum / count <= 255) by (nonlinear_arith)
            requires
                b_sum <= 255 * count,
                count >= 1,
        ;
    }
    ((r_sum / count) as u8, (g_sum / count) as u8, (b_sum / count) as u8)
}

/// The cell for pixel `i` of the frame.
fn compose_cell(fb: &Framebuffer, gradients: &Vec<Gradient>, i: usize, true_color: bool) -> (c:
    Cell)
    requires
        fb.wf(),
        gradients@.len() == fb.width * fb.height,
        i < fb.width * fb.height,
    ensures
        c == cell_for(
            fb.data@,
            fb.luma(),
            gradients@,
            fb.width as int,
            fb.height as int,
            i as int,
            true_color,
        ),
{
    let w = fb.width;
    proof {
        lemma_index_coords(w as int, fb.height as int, i as int);
    }
    let x = i % w;
    let y = i / w;
    let g = gradients[i];
    let edge = g.magnitude_sq > EDGE_THRESHOLD_SQ;
    let glyph = if edge {
        angle_to_ascii(g.gx, g.gy)
    } else {
        brightness_to_ascii(fb.get_brightness(x, y), false)
    };
    let (r, gr, b) = if edge {
        average_neighbor_colors(fb, x, y)
    } else {
        fb.get_pixel(x, y).to_rgb()
    };
    if true_color {
        Cell { glyph, color_pair: 0, color: (r, gr, b) }
    } else {
        Cell {
            glyph,
            color_pair: get_closest_color_pair(r, gr, b),
            color: nearest_cube_color(r, gr, b),
        }
    }
}

/// Composes a frame into the back buffer of `buffer` and swaps the buffers,
/// so that the front buffer holds the complete new frame and the back buffer
/// the previous one.
pub fn draw_colored_frame(
    fb: &Framebuffer,
    gradients: &Vec<Gradient>,
    buffer: &mut TerminalBuffer,
    true_color: bool,
)
    requires
        fb.wf(),
        gradients@.len() == fb.width * fb.height,
        old(buffer).wf(),
        old(buffer).cols() == fb.width,
        old(buffer).rows() == fb.height,
    ensures
        final(buffer).wf(),
        final(buffer).cols() == old(buffer).cols(),
        final(buffer).rows() == old(buffer).rows(),
        final(buffer).front() == composed_cells(
            fb.data@,
            fb.luma(),
            gradients@,
            fb.width as int,
            fb.height as int,
            true_color,
        ),
        final(buffer).back() == old(buffer).front(),
{
    let w = fb.width;
    let h = fb.height;
    let n = fb.data.len();
    buffer.clear();
    let mut i: usize = 0;
    while i < n
        invariant
            fb.wf(),
            w == fb.width,
            h == fb.height,
            n == w * h,
            gradients@.len() == n,
            buffer.wf(),
            buffer.cols() == w,
            buffer.rows() == h,
            buffer.front() == old(buffer).front(),
            i <= n,
            forall|k: int|
                0 <= k < i ==> buffer.back()[k] == cell_for(
                    fb.data@,
                    fb.luma(),
                    gradients@,
                    w as int,
                    h as int,
                    k,
                    true_color,
                ),
        decreases n - i,
    {
        proof {
            lemma_index_coords(w as int, h as int, i as int);
        }
        let c = compose_cell(fb, gradients, i, true_color);
        buffer.set_char(i % w, i / w, c.glyph, c.color_pair, c.color);
        i = i + 1;
    }
    assert(buffer.back() =~= composed_cells(
        fb.data@,
        fb.luma(),
        gradients@,
        w as int,
        h as int,
        true_color,
    ));
    buffer.swap_buffers();
}

/// A frame of one solid colour composes to identical cells: once its
/// luminance is extracted, its contrast changed and its colours snapped to the
/// palette without dithering, its gradients vanish and every cell gets the
/// same glyph and the same colour.
pub proof fn lemma_solid_frame_is_uniform(
    color: Pixel,
    w: int,
    h: int,
    levels: int,
    contrast_milli: int,
    true_color: bool,
)
    requires
        0 <= w,
        0 <= h,
        2 <= levels <= 255,
    ensures
        ({
            let data0 = Seq::new((w * h) as nat, |i: int| color);
            let lum = contrast_stage(luma_stage(data0, levels), contrast_milli);
            let data = dither_stage(data0, w, 0);
            let cells = composed_cells(data, lum, gradient_field(lum, w, h), w, h, true_color);
            forall|i: int, j: int| 0 <= i < w * h && 0 <= j < w * h ==> cells[i] == cells[j]
        }),
{
    let data0 = Seq::new((w * h) as nat, |i: int| color);
    let lum = contrast_stage(luma_stage(data0, levels), contrast_milli);
    let data = dither_stage(data0, w, 0);
    let grads = gradient_field(lum, w, h);
    let cells = composed_cells(data, lum, grads, w, h, true_color);
    let v = lum[0];
    assert forall|k: int| 0 <= k < lum.len() implies lum[k] == v by {}
    lemma_flat_has_no_edges(lum, w, h, v);
    let snapped = dithered_pixel(color, 0, 0, 0);
    assert forall|i: int| 0 <= i < w * h implies data[i] == snapped by {
        assert(dithered(color.r as int, i % w, i / w, 0) == dithered(color.r as int, 0, 0, 0));
        assert(dithered(color.g as int, i % w, i / w, 0) == dithered(color.g as int, 0, 0, 0));
        assert(dithered(color.b as int, i % w, i / w, 0) == dithered(color.b as int, 0, 0, 0));
    }
    assert forall|i: int, j: int| 0 <= i < w * h && 0 <= j < w * h implies cells[i] == cells[j] by {
        assert(grads[i].magnitude_sq == 0);
        assert(grads[j].magnitude_sq == 0);
    }
}

} // verus!
