use vstd::prelude::*;
use crate::sobel::{orientation, orientation_of, Orientation};

verus! {

/// Fifth power.
pub open spec fn pow5(x: int) -> int {
    x * x * x * x * x
}

/// Eleventh power.
pub open spec fn pow11(x: int) -> int {
    pow5(x) * pow5(x) * x
}

/// Gamma-corrected brightness `c = (b / 255)^(1 / 2.2)` reaches `(2i - 1) / 18`,
/// that is `9c` rounds to `i` or more. Raising both sides to the eleventh
/// power (`2.2 × 5 = 11`) turns the test into one on integers.
pub open spec fn gamma_reaches(b: int, i: int) -> bool {
    pow5(b) * pow11(18) >= pow11(2 * i - 1) * pow5(255)
}

/// The inverted brightness `1 - c` reaches `(2i - 1) / 18`, that is
/// `c <= (19 - 2i) / 18`.
pub open spec fn gamma_inverted_reaches(b: int, i: int) -> bool {
    pow5(b) * pow11(18) <= pow11(19 - 2 * i) * pow5(255)
}

/// Number of steps `i` in `1..=n` that the (possibly inverted) gamma-corrected
/// brightness reaches.
pub open spec fn steps_reached(b: int, invert: bool, n: int) -> int
    decreases n,
{
    if n <= 0 {
        0
    } else {
        steps_reached(b, invert, n - 1) + if (if invert {
            gamma_inverted_reaches(b, n)
        } else {
            gamma_reaches(b, n)
        }) {
            1int
        } else {
            0int
        }
    }
}

/// Position on the ten-glyph ramp: `round(9 * c)`, or `round(9 * (1 - c))`
/// when inverted, with `c` the gamma-corrected brightness.
pub open spec fn ramp_index(b: int, invert: bool) -> int {
    steps_reached(b, invert, 9)
}

/// The intensity ramp, from darkest to brightest.
pub open spec fn ramp_glyph(k: int) -> char {
    if k == 0 {
        ' '
    } else if k == 1 {
        '.'
    } else if k == 2 {
        ':'
    } else if k == 3 {
        '-'
    } else if k == 4 {
        '='
    } else if k == 5 {
        '+'
    } else if k == 6 {
        '*'
    } else if k == 7 {
        '#'
    } else if k == 8 {
        '%'
    } else {
        '@'
    }
}

/// Glyph drawn across an edge whose gradient has the given orientation: the
/// edge runs at right angles to the gradient.
pub open spec fn edge_glyph_of(o: Orientation) -> char {
    match o {
        Orientation::Horizontal => '|',
        Orientation::Rising => '/',
        Orientation::Vertical => '-',
        Orientation::Falling => '\\',
    }
}

/// At most `n` of the first `n` steps are reached.
proof fn lemma_steps_bounded(b: int, invert: bool, n: int)
    ensures
        0 <= steps_reached(b, invert, n) <= if n < 0 {
            0
        } else {
            n
        },
    decreases n,
{
    if n > 0 {
        lemma_steps_bounded(b, invert, n - 1);
    }
}

/// The two constant powers the thresholds are scaled by.
proof fn lemma_pow5_255()
    ensures
        pow5(255) == 1078203909375,
        pow11(18) == 64268410079232,
{
    assert(pow5(255) == 1078203909375) by (nonlinear_arith);
    assert(pow5(18) == 1889568) by (nonlinear_arith);
    assert(pow11(18) == 64268410079232) by (nonlinear_arith);
}

/// `pow11(2j - 1) * pow5(255)`, the threshold of ramp step `j`.
fn gamma_threshold(j: u32) -> (t: u128)
    requires
        1 <= j <= 9,
    ensures
        t == pow11(2 * j - 1) * pow5(255),
{
    proof {
        lemma_pow5_255();
    }
    match j {
        1 => {
            assert(pow5(1) == 1) by (nonlinear_arith);
            assert(pow11(1) == 1) by (nonlinear_arith);
            1078203909375u128
        },
        2 => {
            assert(pow5(3) == 243) by (nonlinear_arith);
            assert(pow11(3) == 177147) by (nonlinear_arith);
            191000587934053125u128
        },
        3 => {
            assert(pow5(5) == 3125) by (nonlinear_arith);
            assert(pow11(5) == 48828125) by (nonlinear_arith);
            52646675262451171875u128
        },
        4 => {
            assert(pow5(7) == 16807) by (nonlinear_arith);
            assert(pow11(7) == 1977326743) by (nonlinear_arith);
            2131961424414335915625u128
        },
        5 => {
            assert(pow5(9) == 59049) by (nonlinear_arith);
            assert(pow11(9) == 31381059609) by (nonlinear_arith);
            33835181150753708934375u128
        },
        6 => {
            assert(pow5(11) == 161051) by (nonlinear_arith);
            assert(pow11(11) == 285311670611) by (nonlinear_arith);
            307624158643092494878125u128
        },
        7 => {
            assert(pow5(13) == 371293) by (nonlinear_arith);
            assert(pow11(13) == 1792160394037) by (nonlinear_arith);
            1932314343077733838396875u128
        },
        8 => {
            assert(pow5(15) == 759375) by (nonlinear_arith);
            assert(pow11(15) == 8649755859375) by (nonlinear_arith);
            9326200582717437744140625u128
        },
        _ => {
            assert(pow5(17) == 1419857) by (nonlinear_arith);
            assert(pow11(17) == 34271896307633) by (nonlinear_arith);
            36952092580584528252759375u128
        },
    }
}

/// `pow5(b) * pow11(18)`, exactly.
fn scaled_pow5(b: u8) -> (v: u128)
    ensures
        v == pow5(b as int) * pow11(18),
{
    let x = b as u128;
    assert(x * x <= 65025 && x * x * x <= 16581375 && x * x * x * x <= 4228250625 && x * x * x
        * x * x <= 1078203909375) by (nonlinear_arith)
        requires
            x <= 255,
    ;
    let p = x * x * x * x * x;
    assert(p * 64268410079232 <= 1078203909375 * 64268410079232) by (nonlinear_arith)
        requires
            p <= 1078203909375,
    ;
    proof {
        lemma_pow5_255();
    }
    p * 64268410079232u128
}

/// The ramp glyph for a brightness: gamma-corrected with `γ = 2.2`, optionally
/// inverted, and rounded to the nearest of ten steps from `' '` to `'@'`.
pub fn brightness_to_ascii(brightness: u8, invert: bool) -> (c: char)
    ensures
        c == ramp_glyph(ramp_index(brightness as int, invert)),
{
    let lhs = scaled_pow5(brightness);
    let mut count: u32 = 0;
    let mut i: u32 = 1;
    while i <= 9
        invariant
            1 <= i <= 10,
            lhs == pow5(brightness as int) * pow11(18),
            count == steps_reached(brightness as int, invert, i - 1),
        decreases 10 - i,
    {
        let reached = if invert {
            lhs <= gamma_threshold(10 - i)
        } else {
            lhs >= gamma_threshold(i)
        };
        proof {
            lemma_steps_bounded(brightness as int, invert, i - 1);
            assert(19 - 2 * (i as int) == 2 * (10 - i as int) - 1);
        }
        if reached {
            count = count + 1;
        }
        i = i + 1;
    }
    match count {
        0 => ' ',
        1 => '.',
        2 => ':',
        3 => '-',
        4 => '=',
        5 => '+',
        6 => '*',
        7 => '#',
        8 => '%',
        _ => '@',
    }
}

/// The edge glyph for a gradient direction `(gx, gy)`, whose angle is
/// `atan2(gy, gx)`: `'|'` within 22.5° of the row axis, `'-'` within 22.5° of
/// the column axis, and `'/'` or `'\\'` on the diagonals.
pub fn angle_to_ascii(gx: i32, gy: i32) -> (c: char)
    ensures
        c == edge_glyph_of(orientation_of(gx as int, gy as int)),
{
    match orientation(gx, gy) {
        Orientation::Horizontal => '|',
        Orientation::Rising => '/',
        Orientation::Vertical => '-',
        Orientation::Falling => '\\',
    }
}

} // verus!
