use ascii_raymarch::framebuffer::Framebuffer;
use ascii_raymarch::pixel::Pixel;
use ascii_raymarch::tiles::tile_origins;

fn shade(t: usize) -> Pixel {
    Pixel { r: t as u8 * 40, g: 1, b: 2, a: 255 }
}

#[test]
fn tile_origins_cover_the_frame_row_by_row() {
    assert_eq!(tile_origins(10, 9), vec![(0, 0), (8, 0), (0, 8), (8, 8)]);
    assert_eq!(tile_origins(16, 8), vec![(0, 0), (8, 0)]);
    assert_eq!(tile_origins(3, 3), vec![(0, 0)]);
    assert_eq!(tile_origins(0, 5), vec![]);
    assert_eq!(tile_origins(24, 17).len(), 9);
}

#[test]
fn merged_tiles_land_on_their_own_pixels() {
    let (w, h) = (10, 9);
    let origins = tile_origins(w, h);
    let mut tiles = Vec::new();
    for (t, &(sx, sy)) in origins.iter().enumerate() {
        let tw = (sx + 8).min(w) - sx;
        let th = (sy + 8).min(h) - sy;
        let mut pixels = Vec::new();
        for ly in 0..th {
            for lx in 0..tw {
                let mut p = shade(t);
                p.b = (ly * tw + lx) as u8;
                pixels.push(p);
            }
        }
        tiles.push(pixels);
    }
    let mut fb = Framebuffer::new(w, h);
    fb.merge_tiles(&tiles);
    for y in 0..h {
        for x in 0..w {
            let t = (y / 8) * 2 + x / 8;
            let (sx, sy) = origins[t];
            let tw = (sx + 8).min(w) - sx;
            let p = fb.get_pixel(x, y);
            assert_eq!(p.r, shade(t).r, "pixel ({}, {})", x, y);
            assert_eq!(p.b as usize, (y - sy) * tw + (x - sx));
        }
    }
    assert_eq!(fb.get_pixel(9, 8).r, 120);
    assert_eq!(fb.get_pixel(7, 7).r, 0);
}

#[test]
fn merge_order_does_not_matter() {
    let (w, h) = (12, 10);
    let origins = tile_origins(w, h);
    let tiles: Vec<Vec<Pixel>> = origins
        .iter()
        .enumerate()
        .map(|(t, &(sx, sy))| vec![shade(t); ((sx + 8).min(w) - sx) * ((sy + 8).min(h) - sy)])
        .collect();
    let mut merged = Framebuffer::new(w, h);
    merged.merge_tiles(&tiles);
    let mut written = Framebuffer::new(w, h);
    for t in (0..origins.len()).rev() {
        written.write_tile(origins[t].0, origins[t].1, &tiles[t]);
    }
    assert_eq!(merged.data, written.data);
}

#[test]
fn write_tile_clips_to_the_frame_and_keeps_the_rest() {
    let mut fb = Framebuffer::new(10, 3);
    let red = Pixel { r: 255, g: 0, b: 0, a: 255 };
    fb.write_tile(8, 0, &vec![red; 6]);
    for y in 0..3 {
        for x in 0..10 {
            let expected = if x >= 8 { red } else { Pixel { r: 0, g: 0, b: 0, a: 255 } };
            assert_eq!(*fb.get_pixel(x, y), expected);
        }
    }
}
