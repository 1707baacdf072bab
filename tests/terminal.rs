use ascii_raymarch::framebuffer::Framebuffer;
use ascii_raymarch::pixel::Pixel;
use ascii_raymarch::sobel::compute_gradients;
use ascii_raymarch::terminal::{average_neighbor_colors, draw_colored_frame};
use ascii_raymarch::terminalbuffer::{Cell, TerminalBuffer};

fn blank() -> Cell {
    Cell { glyph: ' ', color_pair: 0, color: (0, 0, 0) }
}

fn solid(width: usize, height: usize, r: u8, g: u8, b: u8) -> Framebuffer {
    let mut fb = Framebuffer::new(width, height);
    for y in 0..height {
        for x in 0..width {
            fb.set_pixel(x, y, Pixel { r, g, b, a: 255 });
        }
    }
    fb
}

#[test]
fn new_buffer_is_blank() {
    let buf = TerminalBuffer::new(4, 2);
    assert_eq!(buf.get_size(), (4, 2));
    assert_eq!(buf.front_cells().len(), 8);
    assert!(buf.front_cells().iter().all(|c| *c == blank()));
}

#[test]
fn writes_reach_the_front_only_after_a_swap() {
    let mut buf = TerminalBuffer::new(3, 2);
    buf.set_char(2, 1, '#', 7, (1, 2, 3));
    assert!(buf.front_cells().iter().all(|c| *c == blank()));
    buf.swap_buffers();
    assert_eq!(buf.front_cells()[5], Cell { glyph: '#', color_pair: 7, color: (1, 2, 3) });
    buf.set_char(3, 0, '@', 1, (0, 0, 0));
    buf.set_char(0, 2, '@', 1, (0, 0, 0));
    buf.swap_buffers();
    assert!(buf.front_cells().iter().all(|c| *c == blank()));
    buf.swap_buffers();
    buf.clear();
    assert_eq!(buf.front_cells()[5], Cell { glyph: '#', color_pair: 7, color: (1, 2, 3) });
    buf.swap_buffers();
    assert!(buf.front_cells().iter().all(|c| *c == blank()));
}

#[test]
fn resize_reallocates_blank_buffers() {
    let mut buf = TerminalBuffer::new(3, 3);
    for i in 0..9 {
        buf.set_char(i % 3, i / 3, 'x', 3, (9, 9, 9));
    }
    buf.swap_buffers();
    buf.resize(5, 2);
    assert_eq!(buf.get_size(), (5, 2));
    assert_eq!(buf.front_cells().len(), 10);
    assert!(buf.front_cells().iter().all(|c| *c == blank()));
    buf.swap_buffers();
    assert_eq!(buf.front_cells().len(), 10);
    assert!(buf.front_cells().iter().all(|c| *c == blank()));
    buf.resize(3, 3);
    assert!(buf.front_cells().iter().all(|c| *c == blank()));
}

#[test]
fn neighbour_average_is_clipped_to_the_frame() {
    let mut fb = solid(3, 3, 0, 0, 0);
    fb.set_pixel(1, 1, Pixel { r: 90, g: 45, b: 9, a: 255 });
    assert_eq!(average_neighbor_colors(&fb, 1, 1), (10, 5, 1));
    assert_eq!(average_neighbor_colors(&fb, 0, 0), (22, 11, 2));
    assert_eq!(average_neighbor_colors(&fb, 2, 1), (15, 7, 1));
    let one = solid(1, 1, 200, 100, 50);
    assert_eq!(average_neighbor_colors(&one, 0, 0), (200, 100, 50));
}

#[test]
fn solid_frame_composes_to_one_repeated_cell() {
    let mut fb = solid(4, 4, 200, 100, 50);
    fb.compute_brightness_buffer(2);
    fb.increase_contrast(1000);
    fb.apply_ordered_dithering(0);
    let grads = compute_gradients(&fb);
    let mut buf = TerminalBuffer::new(4, 4);
    draw_colored_frame(&fb, &grads, &mut buf, false);
    let cells = buf.front_cells();
    assert_eq!(cells.len(), 16);
    assert!(cells.iter().all(|c| *c == Cell { glyph: ' ', color_pair: 158, color: (204, 102, 51) }));
}

#[test]
fn solid_frame_with_default_dithering_stays_uniform() {
    let mut fb = solid(4, 4, 255, 204, 102);
    fb.compute_brightness_buffer(2);
    fb.increase_contrast(1000);
    fb.apply_bayer_dithering();
    let grads = compute_gradients(&fb);
    let mut buf = TerminalBuffer::new(4, 4);
    draw_colored_frame(&fb, &grads, &mut buf, false);
    assert!(buf.front_cells().iter().all(|c| *c == Cell { glyph: '@', color_pair: 207, color: (255, 204, 102) }));
    draw_colored_frame(&fb, &grads, &mut buf, true);
    assert!(buf.front_cells().iter().all(|c| *c == Cell { glyph: '@', color_pair: 0, color: (255, 204, 102) }));
}

#[test]
fn edges_are_drawn_with_direction_glyphs_and_averaged_colour() {
    let mut fb = Framebuffer::new(6, 4);
    for y in 0..4 {
        for x in 0..6 {
            let v = if x < 3 { 0 } else { 255 };
            fb.set_pixel(x, y, Pixel { r: v, g: v, b: v, a: 255 });
        }
    }
    fb.compute_brightness_buffer(2);
    let grads = compute_gradients(&fb);
    let mut buf = TerminalBuffer::new(6, 4);
    draw_colored_frame(&fb, &grads, &mut buf, false);
    let cells = buf.front_cells();
    assert_eq!(cells[6 + 2], Cell { glyph: '|', color_pair: 87, color: (102, 102, 102) });
    assert_eq!(cells[6 + 3], Cell { glyph: '|', color_pair: 130, color: (153, 153, 153) });
    assert_eq!(cells[6 + 0], Cell { glyph: ' ', color_pair: 1, color: (0, 0, 0) });
    assert_eq!(cells[6 + 5], Cell { glyph: '@', color_pair: 216, color: (255, 255, 255) });
}

#[test]
fn true_colour_cells_keep_the_raw_colour() {
    let mut fb = Framebuffer::new(3, 3);
    for y in 0..3 {
        for x in 0..3 {
            fb.set_pixel(x, y, Pixel { r: 200, g: 100, b: 50, a: 255 });
        }
    }
    fb.compute_brightness_buffer(2);
    let grads = compute_gradients(&fb);
    let mut buf = TerminalBuffer::new(3, 3);
    draw_colored_frame(&fb, &grads, &mut buf, true);
    assert!(buf.front_cells().iter().all(|c| *c == Cell { glyph: ' ', color_pair: 0, color: (200, 100, 50) }));
    draw_colored_frame(&fb, &grads, &mut buf, false);
    assert!(buf.front_cells().iter().all(|c| *c == Cell { glyph: ' ', color_pair: 158, color: (204, 102, 51) }));
}
