use ascii_raymarch::framebuffer::Framebuffer;
use ascii_raymarch::pixel::Pixel;
use std::collections::BTreeSet;

fn solid(width: usize, height: usize, r: u8, g: u8, b: u8) -> Framebuffer {
    let mut fb = Framebuffer::new(width, height);
    for y in 0..height {
        for x in 0..width {
            fb.set_pixel(x, y, Pixel { r, g, b, a: 255 });
        }
    }
    fb
}

#[test]
fn new_framebuffer_is_opaque_black_with_zero_luminance() {
    let fb = Framebuffer::new(5, 3);
    assert_eq!(fb.data.len(), 15);
    assert_eq!(fb.brightness().len(), 15);
    assert!(fb.data.iter().all(|p| *p == Pixel { r: 0, g: 0, b: 0, a: 255 }));
    assert!(fb.brightness().iter().all(|&v| v == 0));
}

#[test]
fn set_and_get_pixel_address_row_major() {
    let mut fb = Framebuffer::new(4, 3);
    let p = Pixel { r: 9, g: 8, b: 7, a: 6 };
    fb.set_pixel(3, 1, p);
    assert_eq!(*fb.get_pixel(3, 1), p);
    assert_eq!(fb.data[7], p);
    assert_eq!(*fb.get_pixel(2, 1), Pixel { r: 0, g: 0, b: 0, a: 255 });
    fb.clear();
    assert_eq!(*fb.get_pixel(3, 1), Pixel { r: 0, g: 0, b: 0, a: 255 });
}

#[test]
fn posterize_rounds_to_nearest_step() {
    assert_eq!(Framebuffer::posterize_brightness(0, 2), 0);
    assert_eq!(Framebuffer::posterize_brightness(127, 2), 0);
    assert_eq!(Framebuffer::posterize_brightness(128, 2), 255);
    assert_eq!(Framebuffer::posterize_brightness(255, 2), 255);
    assert_eq!(Framebuffer::posterize_brightness(100, 32), 99);
    assert_eq!(Framebuffer::posterize_brightness(140, 32), 140);
    assert_eq!(Framebuffer::posterize_brightness(200, 255), 200);
    assert_eq!(Framebuffer::posterize_brightness(100, 3), 128);
}

#[test]
fn posterize_has_exactly_levels_values_and_is_idempotent() {
    for levels in 2..=255u8 {
        let mut outputs = BTreeSet::new();
        for b in 0..=255u8 {
            let v = Framebuffer::posterize_brightness(b, levels);
            assert_eq!(Framebuffer::posterize_brightness(v, levels), v);
            outputs.insert(v);
        }
        assert_eq!(outputs.len(), levels as usize);
        assert!(outputs.contains(&0));
        assert!(outputs.contains(&255));
    }
}

#[test]
fn brightness_buffer_is_truncated_weighted_luma() {
    let mut fb = solid(2, 2, 100, 150, 200);
    fb.set_pixel(1, 1, Pixel { r: 255, g: 255, b: 255, a: 255 });
    fb.compute_brightness_buffer(32);
    assert_eq!(fb.get_brightness(0, 0), 140);
    assert_eq!(fb.get_brightness(1, 1), 255);
    fb.compute_brightness_buffer(2);
    assert_eq!(fb.get_brightness(0, 0), 255);
    let mut dark = solid(1, 1, 100, 50, 20);
    dark.compute_brightness_buffer(255);
    assert_eq!(dark.get_brightness(0, 0), 61);
}

#[test]
fn brightness_scales_and_clamps() {
    let mut fb = solid(2, 1, 0, 0, 0);
    fb.set_pixel(1, 0, Pixel { r: 255, g: 255, b: 255, a: 255 });
    fb.compute_brightness_buffer(3);
    assert_eq!(fb.brightness().clone(), vec![0, 255]);
    let mut mid = solid(1, 1, 100, 100, 100);
    mid.compute_brightness_buffer(255);
    assert_eq!(mid.get_brightness(0, 0), 100);
    mid.increase_brightness(1600);
    assert_eq!(mid.get_brightness(0, 0), 160);
    mid.increase_brightness(1600);
    assert_eq!(mid.get_brightness(0, 0), 255);
    mid.increase_brightness(-1000);
    assert_eq!(mid.get_brightness(0, 0), 0);
}

#[test]
fn contrast_pivots_on_mid_grey() {
    let mut fb = solid(1, 1, 100, 100, 100);
    fb.compute_brightness_buffer(255);
    fb.increase_contrast(1250);
    assert_eq!(fb.get_brightness(0, 0), 93);
    let mut black = solid(1, 1, 0, 0, 0);
    black.compute_brightness_buffer(255);
    black.increase_contrast(1250);
    assert_eq!(black.get_brightness(0, 0), 0);
    let mut white = solid(1, 1, 255, 255, 255);
    white.compute_brightness_buffer(255);
    white.increase_contrast(1250);
    assert_eq!(white.get_brightness(0, 0), 255);
}

#[test]
fn contrast_of_one_changes_nothing() {
    let mut fb = Framebuffer::new(16, 16);
    for i in 0..256usize {
        let v = i as u8;
        fb.set_pixel(i % 16, i / 16, Pixel { r: v, g: v, b: v, a: 255 });
    }
    fb.compute_brightness_buffer(255);
    let before = fb.brightness().clone();
    fb.increase_contrast(1000);
    assert_eq!(fb.brightness().clone(), before);
}

#[test]
fn sharpening_pushes_interior_away_from_neighbours() {
    let mut fb = solid(3, 3, 50, 50, 50);
    fb.set_pixel(1, 1, Pixel { r: 100, g: 100, b: 100, a: 255 });
    fb.compute_brightness_buffer(255);
    assert_eq!(fb.get_brightness(1, 1), 100);
    assert_eq!(fb.get_brightness(0, 0), 50);
    fb.apply_sharpening(1000);
    assert_eq!(fb.get_brightness(1, 1), 150);
    assert_eq!(fb.get_brightness(0, 0), 50);
    assert_eq!(fb.get_brightness(2, 1), 50);
    fb.apply_sharpening(4000);
    assert_eq!(fb.get_brightness(1, 1), 255);
}

#[test]
fn sharpening_reads_values_from_before_the_pass() {
    let mut fb = solid(4, 3, 0, 0, 0);
    fb.set_pixel(1, 1, Pixel { r: 200, g: 200, b: 200, a: 255 });
    fb.compute_brightness_buffer(255);
    fb.apply_sharpening(1000);
    assert_eq!(fb.get_brightness(1, 1), 255);
    assert_eq!(fb.get_brightness(2, 1), 0);
}

#[test]
fn sharpening_leaves_thin_frames_alone() {
    let mut fb = solid(2, 5, 10, 10, 10);
    fb.compute_brightness_buffer(255);
    let before = fb.brightness().clone();
    fb.apply_sharpening(1500);
    assert_eq!(fb.brightness().clone(), before);
}

#[test]
fn bayer_dithering_perturbs_then_snaps_to_palette() {
    let mut fb = solid(2, 2, 100, 100, 100);
    fb.apply_bayer_dithering();
    for p in fb.data.iter() {
        assert_eq!(*p, Pixel { r: 102, g: 102, b: 102, a: 255 });
    }
    let mut edge = solid(2, 2, 80, 80, 80);
    edge.apply_bayer_dithering();
    assert_eq!(*edge.get_pixel(0, 0), Pixel { r: 51, g: 51, b: 51, a: 255 });
    assert_eq!(*edge.get_pixel(1, 0), Pixel { r: 102, g: 102, b: 102, a: 255 });
    assert_eq!(*edge.get_pixel(0, 1), Pixel { r: 102, g: 102, b: 102, a: 255 });
    assert_eq!(*edge.get_pixel(1, 1), Pixel { r: 51, g: 51, b: 51, a: 255 });
}

#[test]
fn dithering_intensity_is_configurable() {
    let mut plain = solid(2, 2, 76, 76, 76);
    plain.apply_ordered_dithering(0);
    assert!(plain.data.iter().all(|p| *p == Pixel { r: 51, g: 51, b: 51, a: 255 }));
    let mut strong = solid(2, 1, 200, 0, 0);
    strong.apply_ordered_dithering(1000);
    assert_eq!(*strong.get_pixel(0, 0), Pixel { r: 51, g: 0, b: 0, a: 255 });
    assert_eq!(*strong.get_pixel(1, 0), Pixel { r: 204, g: 0, b: 0, a: 255 });
    let mut dark = solid(1, 1, 10, 10, 10);
    dark.apply_ordered_dithering(1000);
    assert_eq!(*dark.get_pixel(0, 0), Pixel { r: 0, g: 0, b: 0, a: 255 });
}

#[test]
fn resize_by_reallocation_leaves_nothing_behind() {
    let mut fb = solid(3, 3, 9, 9, 9);
    fb.compute_brightness_buffer(255);
    fb = Framebuffer::new(5, 2);
    assert_eq!(fb.width, 5);
    assert_eq!(fb.height, 2);
    assert_eq!(fb.data.len(), 10);
    assert_eq!(fb.brightness().len(), 10);
    assert!(fb.data.iter().all(|p| *p == Pixel { r: 0, g: 0, b: 0, a: 255 }));
    assert!(fb.brightness().iter().all(|&v| v == 0));
}
