use ascii_raymarch::ascii::angle_to_ascii;
use ascii_raymarch::framebuffer::Framebuffer;
use ascii_raymarch::pixel::Pixel;
use ascii_raymarch::sobel::{
    apply_non_maximum_suppression, compute_gradients, orientation, Gradient, Orientation,
};

fn filled(width: usize, height: usize, color: impl Fn(usize, usize) -> u8) -> Framebuffer {
    let mut fb = Framebuffer::new(width, height);
    for y in 0..height {
        for x in 0..width {
            let v = color(x, y);
            fb.set_pixel(x, y, Pixel { r: v, g: v, b: v, a: 255 });
        }
    }
    fb.compute_brightness_buffer(255);
    fb
}

#[test]
fn flat_buffer_has_no_edges() {
    let fb = filled(7, 5, |_, _| 128);
    let grads = compute_gradients(&fb);
    assert_eq!(grads.len(), 35);
    assert!(grads.iter().all(|g| g.magnitude_sq == 0 && g.gx == 0 && g.gy == 0));
}

#[test]
fn vertical_edge_peaks_on_the_boundary_columns() {
    let fb = filled(8, 6, |x, _| if x < 4 { 0 } else { 255 });
    let grads = compute_gradients(&fb);
    for y in 0..6 {
        for x in 0..8 {
            let g = grads[y * 8 + x];
            let on_edge = (1..5).contains(&y) && (x == 3 || x == 4);
            if on_edge {
                assert_eq!(g, Gradient { gx: 1020, gy: 0, magnitude_sq: 1020 * 1020 });
                assert_eq!(orientation(g.gx, g.gy), Orientation::Horizontal);
                assert_eq!(angle_to_ascii(g.gx, g.gy), '|');
            } else {
                assert_eq!(g.magnitude_sq, 0, "pixel ({}, {})", x, y);
            }
        }
    }
}

#[test]
fn borders_get_the_zero_gradient() {
    let fb = filled(4, 4, |x, y| ((x * 37 + y * 91) % 256) as u8);
    let grads = compute_gradients(&fb);
    for y in 0..4 {
        for x in 0..4 {
            if x == 0 || y == 0 || x == 3 || y == 3 {
                assert_eq!(grads[y * 4 + x], Gradient { gx: 0, gy: 0, magnitude_sq: 0 });
            }
        }
    }
}

#[test]
fn sobel_responds_to_a_horizontal_edge() {
    let fb = filled(5, 5, |_, y| if y < 2 { 10 } else { 110 });
    let grads = compute_gradients(&fb);
    let g = grads[1 * 5 + 2];
    assert_eq!(g.gx, 0);
    assert_eq!(g.gy, 400);
    assert_eq!(orientation(g.gx, g.gy), Orientation::Vertical);
    assert_eq!(g.magnitude_sq, 160000);
    assert_eq!(grads[2 * 5 + 2].magnitude_sq, 160000);
    assert_eq!(grads[3 * 5 + 2].magnitude_sq, 0);
}

#[test]
fn suppression_keeps_local_maxima_and_ties() {
    let w = 5;
    let h = 3;
    let mags = [0u32, 4, 9, 9, 0];
    let mut raw = Vec::new();
    for _y in 0..h {
        for x in 0..w {
            raw.push(Gradient { gx: 3, gy: 0, magnitude_sq: mags[x] });
        }
    }
    let out = apply_non_maximum_suppression(&raw, w, h);
    assert_eq!(out.len(), 15);
    assert_eq!(out[5 + 1], Gradient { gx: 3, gy: 0, magnitude_sq: 0 });
    assert_eq!(out[5 + 2], Gradient { gx: 3, gy: 0, magnitude_sq: 9 });
    assert_eq!(out[5 + 3], Gradient { gx: 3, gy: 0, magnitude_sq: 9 });
    assert_eq!(out[0], Gradient { gx: 0, gy: 0, magnitude_sq: 0 });
    assert_eq!(out[5], Gradient { gx: 0, gy: 0, magnitude_sq: 0 });
}

#[test]
fn suppression_compares_along_the_orientation() {
    let w = 3;
    let h = 3;
    let mut raw = vec![Gradient { gx: 0, gy: 0, magnitude_sq: 0 }; 9];
    raw[4] = Gradient { gx: 5, gy: 5, magnitude_sq: 50 };
    raw[2] = Gradient { gx: 0, gy: 0, magnitude_sq: 60 };
    let out = apply_non_maximum_suppression(&raw, w, h);
    assert_eq!(out[4].magnitude_sq, 0);
    raw[2].magnitude_sq = 0;
    raw[0].magnitude_sq = 60;
    let out = apply_non_maximum_suppression(&raw, w, h);
    assert_eq!(out[4].magnitude_sq, 50);
    raw[4] = Gradient { gx: 5, gy: -5, magnitude_sq: 50 };
    let out = apply_non_maximum_suppression(&raw, w, h);
    assert_eq!(out[4], Gradient { gx: 5, gy: -5, magnitude_sq: 0 });
}

#[test]
fn orientation_folds_opposite_directions_together() {
    assert_eq!(orientation(10, 0), Orientation::Horizontal);
    assert_eq!(orientation(-10, 3), Orientation::Horizontal);
    assert_eq!(orientation(-10, -3), Orientation::Horizontal);
    assert_eq!(orientation(0, 0), Orientation::Horizontal);
    assert_eq!(orientation(0, 7), Orientation::Vertical);
    assert_eq!(orientation(2, -7), Orientation::Vertical);
    assert_eq!(orientation(7, 7), Orientation::Rising);
    assert_eq!(orientation(-7, -6), Orientation::Rising);
    assert_eq!(orientation(-7, 7), Orientation::Falling);
    assert_eq!(orientation(7, -6), Orientation::Falling);
    assert_eq!(orientation(i32::MIN, i32::MAX), Orientation::Falling);
}
