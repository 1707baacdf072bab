use ascii_raymarch::ascii::{angle_to_ascii, brightness_to_ascii};

#[test]
fn brightness_ramp_follows_gamma_curve() {
    let cases: [(u8, char, char); 14] = [
        (0, ' ', '@'),
        (1, '.', '%'),
        (2, '.', '%'),
        (5, ':', '#'),
        (10, ':', '#'),
        (20, '-', '*'),
        (50, '=', '+'),
        (64, '+', '='),
        (100, '*', '-'),
        (128, '#', ':'),
        (140, '#', ':'),
        (200, '%', '.'),
        (254, '@', ' '),
        (255, '@', ' '),
    ];
    for (b, plain, inverted) in cases {
        assert_eq!(brightness_to_ascii(b, false), plain, "brightness {}", b);
        assert_eq!(brightness_to_ascii(b, true), inverted, "inverted brightness {}", b);
    }
}

#[test]
fn brightness_ramp_is_monotone() {
    let ramp = [' ', '.', ':', '-', '=', '+', '*', '#', '%', '@'];
    let mut last = 0;
    for b in 0..=255u8 {
        let pos = ramp.iter().position(|&c| c == brightness_to_ascii(b, false)).unwrap();
        assert!(pos >= last);
        last = pos;
    }
    assert_eq!(last, 9);
}

#[test]
fn edge_glyph_runs_across_the_gradient() {
    assert_eq!(angle_to_ascii(10, 0), '|');
    assert_eq!(angle_to_ascii(-10, 0), '|');
    assert_eq!(angle_to_ascii(0, 0), '|');
    assert_eq!(angle_to_ascii(0, 10), '-');
    assert_eq!(angle_to_ascii(0, -10), '-');
    assert_eq!(angle_to_ascii(10, 10), '/');
    assert_eq!(angle_to_ascii(-10, -10), '/');
    assert_eq!(angle_to_ascii(-10, 10), '\\');
    assert_eq!(angle_to_ascii(10, -10), '\\');
    assert_eq!(angle_to_ascii(10, 4), '|');
    assert_eq!(angle_to_ascii(10, 5), '/');
    assert_eq!(angle_to_ascii(4, 10), '-');
    assert_eq!(angle_to_ascii(-10, -3), '|');
}
