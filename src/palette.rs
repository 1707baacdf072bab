use vstd::prelude::*;

verus! {

/// An RGB triple without alpha.
pub type Rgb = (u8, u8, u8);

/// Number of intensity levels per channel in the colour cube.
pub const CUBE_LEVELS: usize = 6;

/// Number of colours in the 6×6×6 cube.
pub const CUBE_SIZE: usize = 216;

/// The `i`-th colour of the cube: red varies slowest, blue fastest, each in
/// steps of 51 from 0 to 255.
pub open spec fn cube_color(i: int) -> Rgb {
    (((i / 36) * 51) as u8, (((i / 6) % 6) * 51) as u8, ((i % 6) * 51) as u8)
}

/// The whole cube, in index order.
pub open spec fn cube_colors() -> Seq<Rgb> {
    Seq::new(216, |i: int| cube_color(i))
}

/// Squared Euclidean distance between two colours in RGB space.
pub open spec fn color_distance(a: Rgb, b: Rgb) -> int {
    let dr = a.0 as int - b.0 as int;
    let dg = a.1 as int - b.1 as int;
    let db = a.2 as int - b.2 as int;
    dr * dr + dg * dg + db * db
}

/// Index of the first colour nearest to `q` among the first `n` entries.
pub open spec fn nearest_index_upto(colors: Seq<Rgb>, q: Rgb, n: nat) -> int
    decreases n,
{
    if n <= 1 {
        0
    } else {
        let k = nearest_index_upto(colors, q, (n - 1) as nat);
        if color_distance(q, colors[n - 1]) < color_distance(q, colors[k]) {
            n - 1
        } else {
            k
        }
    }
}

/// Index of the first colour of `colors` nearest to `q`.
pub open spec fn nearest_index(colors: Seq<Rgb>, q: Rgb) -> int {
    nearest_index_upto(colors, q, colors.len())
}

/// `i` is the first position of a colour at minimal distance from `q`.
pub open spec fn is_first_nearest(colors: Seq<Rgb>, q: Rgb, i: int) -> bool {
    &&& 0 <= i < colors.len()
    &&& forall|j: int|
        0 <= j < colors.len() ==> color_distance(q, colors[i]) <= color_distance(q, colors[j])
    &&& forall|j: int| 0 <= j < i ==> color_distance(q, colors[i]) < color_distance(q, colors[j])
}

/// The recursive choice is the first minimum of the prefix it ranges over.
pub proof fn lemma_nearest_upto_is_first_min(colors: Seq<Rgb>, q: Rgb, n: nat)
    requires
        1 <= n <= colors.len(),
    ensures
        is_first_nearest(colors.take(n as int), q, nearest_index_upto(colors, q, n)),
    decreases n,
{
    if n > 1 {
        lemma_nearest_upto_is_first_min(colors, q, (n - 1) as nat);
        let k = nearest_index_upto(colors, q, (n - 1) as nat);
        let prev = colors.take(n - 1);
        let cur = colors.take(n as int);
        assert forall|j: int| 0 <= j < n - 1 implies cur[j] == prev[j] by {}
    }
}

/// The nearest colour of a non-empty palette is its first minimum.
pub proof fn lemma_nearest_is_first_min(colors: Seq<Rgb>, q: Rgb)
    requires
        colors.len() > 0,
    ensures
        is_first_nearest(colors, q, nearest_index(colors, q)),
{
    lemma_nearest_upto_is_first_min(colors, q, colors.len());
    assert(colors.take(colors.len() as int) =~= colors);
}

/// A fixed, non-empty set of display colours, searched by nearest distance.
pub struct ColorPalette {
    colors: Vec<Rgb>,
}

impl View for ColorPalette {
    type V = Seq<Rgb>;

    closed spec fn view(&self) -> Seq<Rgb> {
        self.colors@
    }
}

impl ColorPalette {
    /// The 216-colour cube.
    pub fn new() -> (p: Self)
        ensures
            p@ == cube_colors(),
    {
        let mut colors: Vec<Rgb> = Vec::new();
        let mut i: usize = 0;
        while i < CUBE_SIZE
            invariant
                i <= CUBE_SIZE,
                colors@ == Seq::new(i as nat, |k: int| cube_color(k)),
            decreases CUBE_SIZE - i,
        {
            let r = (i / 36) * 51;
            let g = ((i / 6) % CUBE_LEVELS) * 51;
            let b = (i % CUBE_LEVELS) * 51;
            colors.push((r as u8, g as u8, b as u8));
            i = i + 1;
            assert(colors@ =~= Seq::new(i as nat, |k: int| cube_color(k)));
        }
        assert(colors@ =~= cube_colors());
        ColorPalette { colors }
    }

    /// The palette colour nearest to `(r, g, b)` by squared RGB distance; of
    /// several at the same distance, the one that comes first.
    pub fn closest_color(&self, r: u8, g: u8, b: u8) -> (c: Rgb)
        requires
            self@.len() > 0,
        ensures
            c == self@[nearest_index(self@, (r, g, b))],
            is_first_nearest(self@, (r, g, b), nearest_index(self@, (r, g, b))),
    {
        proof {
            lemma_nearest_is_first_min(self@, (r, g, b));
        }
        let ghost q = (r, g, b);
        let mut best: usize = 0;
        let mut best_dist: u32 = distance(self.colors[0], r, g, b);
        let mut i: usize = 1;
        while i < self.colors.len()
            invariant
                1 <= i <= self.colors@.len(),
                q == (r, g, b),
                best == nearest_index_upto(self.colors@, q, i as nat),
                best < self.colors@.len(),
                best_dist == color_distance(q, self.colors@[best as int]),
            decreases self.colors@.len() - i,
        {
            let d = distance(self.colors[i], r, g, b);
            if d < best_dist {
                best = i;
                best_dist = d;
            }
            i = i + 1;
        }
        self.colors[best]
    }
}

/// Squared RGB distance between a palette entry and a query colour.
fn distance(c: Rgb, r: u8, g: u8, b: u8) -> (d: u32)
    ensures
        d == color_distance((r, g, b), c),
{
    let dr = r as i32 - c.0 as i32;
    let dg = g as i32 - c.1 as i32;
    let db = b as i32 - c.2 as i32;
    assert(dr * dr <= 65025) by (nonlinear_arith)
        requires
            -255 <= dr <= 255,
    ;
    assert(dg * dg <= 65025) by (nonlinear_arith)
        requires
            -255 <= dg <= 255,
    ;
    assert(db * db <= 65025) by (nonlinear_arith)
        requires
            -255 <= db <= 255,
    ;
    assert(dr * dr >= 0 && dg * dg >= 0 && db * db >= 0) by (nonlinear_arith);
    (dr * dr + dg * dg + db * db) as u32
}

/// The display colour pair for `(r, g, b)` on a palette display: one more
/// than the index of the nearest cube colour, as pairs are numbered from 1.
pub open spec fn color_pair_of(r: u8, g: u8, b: u8) -> int {
    1 + nearest_index(cube_colors(), (r, g, b))
}

/// Nearest of the six cube levels to a channel value: `round(v / 51)`.
pub open spec fn nearest_level(v: int) -> int {
    (v + 25) / 51
}

/// The cube level nearest to `v` is strictly nearer than any other level.
proof fn lemma_nearest_level(v: int, m: int)
    requires
        0 <= v <= 255,
        0 <= m < 6,
        m != nearest_level(v),
    ensures
        0 <= nearest_level(v) < 6,
        (v - 51 * nearest_level(v)) * (v - 51 * nearest_level(v)) < (v - 51 * m) * (v - 51 * m),
{
    let k = nearest_level(v);
    assert(-25 <= v - 51 * k <= 25);
    assert(v - 51 * m >= 26 || 51 * m - v >= 26);
    assert((v - 51 * k) * (v - 51 * k) <= 625) by (nonlinear_arith)
        requires
            -25 <= v - 51 * k <= 25,
    ;
    assert((v - 51 * m) * (v - 51 * m) >= 676) by (nonlinear_arith)
        requires
            v - 51 * m >= 26 || 51 * m - v >= 26,
    ;
}

/// The cube colour that rounds each channel to the nearest level is the
/// nearest cube colour, strictly nearer than every other one; so it is the
/// one `nearest_index` picks.
pub proof fn lemma_cube_nearest_by_channel(q: Rgb)
    ensures
        nearest_index(cube_colors(), q) == 36 * nearest_level(q.0 as int) + 6 * nearest_level(
            q.1 as int,
        ) + nearest_level(q.2 as int),
        cube_colors()[nearest_index(cube_colors(), q)] == (
            (nearest_level(q.0 as int) * 51) as u8,
            (nearest_level(q.1 as int) * 51) as u8,
            (nearest_level(q.2 as int) * 51) as u8,
        ),
        0 <= nearest_level(q.0 as int) < 6,
        0 <= nearest_level(q.1 as int) < 6,
        0 <= nearest_level(q.2 as int) < 6,
{
    let kr = nearest_level(q.0 as int);
    let kg = nearest_level(q.1 as int);
    let kb = nearest_level(q.2 as int);
    let idx = 36 * kr + 6 * kg + kb;
    let cube = cube_colors();
    assert(0 <= kr < 6 && 0 <= kg < 6 && 0 <= kb < 6);
    assert(cube[idx] == ((kr * 51) as u8, (kg * 51) as u8, (kb * 51) as u8));
    assert forall|j: int| 0 <= j < 216 && j != idx implies color_distance(q, cube[idx])
        < color_distance(q, cube[j]) by {
        let a = j / 36;
        let b = (j / 6) % 6;
        let c = j % 6;
        assert(j == 36 * a + 6 * b + c);
        assert(cube[j] == ((a * 51) as u8, (b * 51) as u8, (c * 51) as u8));
        if a != kr {
            lemma_nearest_level(q.0 as int, a);
        }
        if b != kg {
            lemma_nearest_level(q.1 as int, b);
        }
        if c != kb {
            lemma_nearest_level(q.2 as int, c);
        }
        if a == kr && b == kg {
            assert(c != kb);
        }
        let r0 = q.0 as int;
        let g0 = q.1 as int;
        let b0 = q.2 as int;
        assert((r0 - 51 * kr) * (r0 - 51 * kr) <= (r0 - 51 * a) * (r0 - 51 * a));
        assert((g0 - 51 * kg) * (g0 - 51 * kg) <= (g0 - 51 * b) * (g0 - 51 * b));
        assert((b0 - 51 * kb) * (b0 - 51 * kb) <= (b0 - 51 * c) * (b0 - 51 * c));
    }
    lemma_nearest_is_first_min(cube, q);
    let n = nearest_index(cube, q);
    if n != idx {
        assert(color_distance(q, cube[idx]) < color_distance(q, cube[n]));
    }
}

/// The display colour pair for `(r, g, b)`: one more than the index of the
/// nearest cube colour, between 1 and 216.
pub fn get_closest_color_pair(r: u8, g: u8, b: u8) -> (p: i16)
    ensures
        p == color_pair_of(r, g, b),
        1 <= p <= 216,
{
    proof {
        lemma_cube_nearest_by_channel((r, g, b));
    }
    let ri = (r as usize + 25) / 51;
    let gi = (g as usize + 25) / 51;
    let bi = (b as usize + 25) / 51;
    (ri * 36 + gi * 6 + bi + 1) as i16
}

/// The cube colour nearest to `(r, g, b)`: each channel rounded to the
/// nearest multiple of 51.
pub fn nearest_cube_color(r: u8, g: u8, b: u8) -> (c: Rgb)
    ensures
        c == cube_colors()[nearest_index(cube_colors(), (r, g, b))],
{
    proof {
        lemma_cube_nearest_by_channel((r, g, b));
    }
    let ri = (r as u32 + 25) / 51;
    let gi = (g as u32 + 25) / 51;
    let bi = (b as u32 + 25) / 51;
    assert(ri == nearest_level(r as int) && gi == nearest_level(g as int) && bi
        == nearest_level(b as int));
    ((ri * 51) as u8, (gi * 51) as u8, (bi * 51) as u8)
}

/// A palette that holds a colour returns that very colour for it, at
/// distance zero.
pub proof fn lemma_exact_color_is_nearest(colors: Seq<Rgb>, q: Rgb)
    requires
        colors.contains(q),
    ensures
        colors[nearest_index(colors, q)] == q,
        color_distance(q, colors[nearest_index(colors, q)]) == 0,
{
    let j = choose|j: int| 0 <= j < colors.len() && colors[j] == q;
    lemma_nearest_is_first_min(colors, q);
    let c = colors[nearest_index(colors, q)];
    let dr = q.0 as int - c.0 as int;
    let dg = q.1 as int - c.1 as int;
    let db = q.2 as int - c.2 as int;
    assert(color_distance(q, colors[j]) == 0);
    assert(dr * dr >= 0 && dg * dg >= 0 && db * db >= 0) by (nonlinear_arith);
    assert(dr * dr == 0 ==> dr == 0) by (nonlinear_arith);
    assert(dg * dg == 0 ==> dg == 0) by (nonlinear_arith);
    assert(db * db == 0 ==> db == 0) by (nonlinear_arith);
}

/// Every colour of the cube is its own nearest cube colour.
pub proof fn lemma_cube_snaps_to_itself(i: int)
    requires
        0 <= i < 216,
    ensures
        cube_colors()[nearest_index(cube_colors(), cube_color(i))] == cube_color(i),
        color_distance(cube_color(i), cube_colors()[nearest_index(cube_colors(), cube_color(i))])
            == 0,
{
    assert(cube_colors()[i] == cube_color(i));
    lemma_exact_color_is_nearest(cube_colors(), cube_color(i));
}

} // verus!
