//! The color codec: eight-bit RGBA input colors, the packed RGB5A3 format,
//! conversion into a chosen output format, and the perceptual distance.
use vstd::prelude::*;

use vstd::arithmetic::div_mod::{lemma_fundamental_div_mod, lemma_fundamental_div_mod_converse};

use crate::grouping::Grouped;
use crate::bits::{convert_3_bits_to_8, convert_4_bits_to_8, convert_5_bits_to_8, widen};

verus! {

/// One distance unit is `1 / DISTANCE_SCALE` of the distance between
/// channel values normalized to `[0, 1]`: distances are kept exact as
/// integers over eight-bit channels.
pub const DISTANCE_SCALE: u64 = 4228250625;

/// The largest distance between two colors, in distance units.
pub const MAX_COLOR_DISTANCE: u64 = 25369503750;

/// The output format that colors are quantized into.
#[derive(Clone, Copy, Debug, PartialEq, Eq, Structural)]
pub enum ColorType {
    /// Eight bits for each channel.
    Rgba8,
    /// The packed sixteen-bit format.
    Rgb5a3,
}

/// A color with eight bits for each of red, green, blue and alpha.
#[derive(Clone, Copy, Debug, PartialEq, Eq, Hash, Structural)]
pub struct Rgba8 {
    pub r: u8,
    pub g: u8,
    pub b: u8,
    pub a: u8,
}

/// The fully transparent color that every color with alpha zero stands for.
pub open spec fn transparent() -> Rgba8 {
    Rgba8 { r: 0, g: 0, b: 0, a: 0 }
}

impl Rgba8 {
    /// A color with alpha zero has zero red, green and blue.
    pub open spec fn is_canonical(self) -> bool {
        self.a == 0 ==> self == transparent()
    }

    /// The color that `self` stands for: transparent colors all collapse to
    /// one value.
    pub open spec fn canonical(self) -> Rgba8 {
        if self.a == 0 {
            transparent()
        } else {
            self
        }
    }

    /// The canonical color with the given channels.
    pub fn new(r: u8, g: u8, b: u8, a: u8) -> (c: Rgba8)
        ensures
            c == (Rgba8 { r, g, b, a }).canonical(),
    {
        if a == 0 {
            Rgba8 { r: 0, g: 0, b: 0, a: 0 }
        } else {
            Rgba8 { r, g, b, a }
        }
    }

    /// The canonical form of this color.
    pub fn to_canonical(&self) -> (c: Rgba8)
        ensures
            c == self.canonical(),
    {
        Rgba8::new(self.r, self.g, self.b, self.a)
    }

    /// The four channels, red first.
    pub fn components(&self) -> (c: (u8, u8, u8, u8))
        ensures
            c == (self.r, self.g, self.b, self.a),
    {
        (self.r, self.g, self.b, self.a)
    }

    /// The perceptual distance to `other`, in distance units.
    pub fn simple_distance_to(&self, other: &Rgba8) -> (d: u64)
        ensures
            d == color_distance(*self, *other),
            d <= MAX_COLOR_DISTANCE,
    {
        proof {
            lemma_color_distance_bound(*self, *other);
        }
        let opaque = square_diff(self.r, other.r) + square_diff(self.g, other.g) + square_diff(
            self.b,
            other.b,
        );
        let alpha = square_diff(self.a, other.a);
        let sa = self.a as u64;
        let oa = other.a as u64;
        assert(sa * oa <= 65025) by (nonlinear_arith)
            requires
                sa <= 255,
                oa <= 255,
        ;
        let aa = sa * oa;
        assert(opaque * aa <= 195075 * 65025) by (nonlinear_arith)
            requires
                opaque <= 195075,
                aa <= 65025,
        ;
        assert(opaque * aa == opaque * sa * oa) by (nonlinear_arith)
            requires
                aa == sa * oa,
        ;
        opaque * aa + 3 * alpha * 65025
    }

    /// The distance to `candidate` beyond the distance to the output color
    /// that this color converts to: the error that choosing `candidate`
    /// adds to the unavoidable error of the format, or zero where
    /// `candidate` is nearer than that.
    pub fn normalized_distance(&self, color_type: ColorType, candidate: &Rgba8) -> (d: u64)
        ensures
            d == normalized_color_distance(color_type, *self, *candidate),
            d <= MAX_COLOR_DISTANCE,
    {
        let nearest = as_output(color_type, *self);
        let floor = self.simple_distance_to(&nearest);
        let distance = self.simple_distance_to(candidate);
        if distance < floor {
            0
        } else {
            distance - floor
        }
    }
}

/// The square of `x`.
pub open spec fn sq(x: int) -> int {
    x * x
}

/// The square of the difference of two channel values.
fn square_diff(x: u8, y: u8) -> (s: u64)
    ensures
        s == sq(x - y),
        s <= 65025,
{
    let d: u64 = if x >= y {
        (x - y) as u64
    } else {
        (y - x) as u64
    };
    assert(d * d <= 65025 && d * d == sq(x - y)) by (nonlinear_arith)
        requires
            d <= 255,
            d == x - y || d == y - x,
    ;
    d * d
}

/// The perceptual distance in distance units: with channels normalized to
/// `[0, 1]` it is `(dr² + dg² + db²) * a1 * a2 + 3 * da²`, here multiplied
/// by `255⁴`.
pub open spec fn color_distance(x: Rgba8, y: Rgba8) -> int {
    (sq(x.r - y.r) + sq(x.g - y.g) + sq(x.b - y.b)) * x.a * y.a + 3 * sq(x.a - y.a) * 65025
}

/// The distance from `x` to `y` less the distance from `x` to its own
/// output color, clamped at zero.
pub open spec fn normalized_color_distance(t: ColorType, x: Rgba8, y: Rgba8) -> int {
    let floor = color_distance(x, output_of(t, x));
    let d = color_distance(x, y);
    if d < floor {
        0
    } else {
        d - floor
    }
}

pub proof fn lemma_color_distance_bound(x: Rgba8, y: Rgba8)
    ensures
        0 <= color_distance(x, y) <= MAX_COLOR_DISTANCE,
{
    let o = sq(x.r - y.r) + sq(x.g - y.g) + sq(x.b - y.b);
    let xa = x.a as int;
    let ya = y.a as int;
    assert(0 <= sq(x.r - y.r) <= 65025 && 0 <= sq(x.g - y.g) <= 65025 && 0 <= sq(x.b - y.b)
        <= 65025 && 0 <= sq(x.a - y.a) <= 65025) by (nonlinear_arith)
        requires
            0 <= x.r <= 255,
            0 <= y.r <= 255,
            0 <= x.g <= 255,
            0 <= y.g <= 255,
            0 <= x.b <= 255,
            0 <= y.b <= 255,
            0 <= x.a <= 255,
            0 <= y.a <= 255,
    ;
    assert(0 <= o * xa * ya <= 195075 * 65025) by (nonlinear_arith)
        requires
            0 <= o <= 195075,
            0 <= xa <= 255,
            0 <= ya <= 255,
    ;
}

/// Rounds the eight-bit value `v` to a level out of `max`, half up.
pub open spec fn narrow(v: int, max: int) -> int {
    (v * max + 127) / 255
}

/// The packed value for a color: alpha is rounded to one of eight levels;
/// level 0 is the transparent value, level 7 keeps five bits of each of red,
/// green and blue under the top bit, and the levels in between keep four
/// bits of each beside three bits of alpha.
pub open spec fn rgb5a3_data(c: Rgba8) -> int {
    let level = narrow(c.a as int, 7);
    if level == 0 {
        0
    } else if level == 7 {
        32768 + narrow(c.r as int, 31) * 1024 + narrow(c.g as int, 31) * 32 + narrow(c.b as int, 31)
    } else {
        level * 4096 + narrow(c.r as int, 15) * 256 + narrow(c.g as int, 15) * 16 + narrow(
            c.b as int,
            15,
        )
    }
}

/// The eight-bit color that a packed value stands for.
pub open spec fn rgb5a3_pixel(data: int) -> Rgba8 {
    if data >= 32768 {
        Rgba8 {
            r: widen((data / 1024) % 32, 31) as u8,
            g: widen((data / 32) % 32, 31) as u8,
            b: widen(data % 32, 31) as u8,
            a: 255,
        }
    } else {
        Rgba8 {
            r: widen((data / 256) % 16, 15) as u8,
            g: widen((data / 16) % 16, 15) as u8,
            b: widen(data % 16, 15) as u8,
            a: widen((data / 4096) % 8, 7) as u8,
        }
    }
}

/// The output color, in eight-bit channels, that `c` converts to.
pub open spec fn output_of(t: ColorType, c: Rgba8) -> Rgba8 {
    match t {
        ColorType::Rgba8 => c.canonical(),
        ColorType::Rgb5a3 => rgb5a3_pixel(rgb5a3_data(c)),
    }
}

/// Converts `c` to the output format `color_type`, and expresses the result
/// in eight-bit channels.
pub fn as_output(color_type: ColorType, c: Rgba8) -> (o: Rgba8)
    ensures
        o == output_of(color_type, c),
{
    match color_type {
        ColorType::Rgba8 => c.to_canonical(),
        ColorType::Rgb5a3 => Rgb5a3::new(c).as_pixel(),
    }
}

/// A color in the packed sixteen-bit format.
#[derive(Clone, Copy, Debug, PartialEq, Eq, Hash, Structural)]
pub struct Rgb5a3 {
    pub data: u16,
}

impl Rgb5a3 {
    /// Packs `c`, rounding each channel to the precision that its alpha
    /// level leaves.
    pub fn new(c: Rgba8) -> (p: Rgb5a3)
        ensures
            p.data == rgb5a3_data(c),
    {
        let level = (c.a as u16 * 7 + 127) / 255;
        if level == 0 {
            Rgb5a3 { data: 0 }
        } else if level == 7 {
            let r = (c.r as u16 * 31 + 127) / 255;
            let g = (c.g as u16 * 31 + 127) / 255;
            let b = (c.b as u16 * 31 + 127) / 255;
            Rgb5a3 { data: 32768 + r * 1024 + g * 32 + b }
        } else {
            let r = (c.r as u16 * 15 + 127) / 255;
            let g = (c.g as u16 * 15 + 127) / 255;
            let b = (c.b as u16 * 15 + 127) / 255;
            Rgb5a3 { data: level * 4096 + r * 256 + g * 16 + b }
        }
    }

    /// Whether the top bit marks five bits of each of red, green and blue
    /// at full opacity.
    pub fn is_rgb5(&self) -> (r: bool)
        ensures
            r == (self.data >= 32768),
    {
        self.data >= 32768
    }

    /// Red, in the five-bit layout.
    pub fn r5(&self) -> (r: u16)
        ensures
            r == (self.data / 1024) % 32,
    {
        (self.data / 1024) % 32
    }

    /// Green, in the five-bit layout.
    pub fn g5(&self) -> (r: u16)
        ensures
            r == (self.data / 32) % 32,
    {
        (self.data / 32) % 32
    }

    /// Blue, in the five-bit layout.
    pub fn b5(&self) -> (r: u16)
        ensures
            r == self.data % 32,
    {
        self.data % 32
    }

    /// The alpha level, in the four-bit layout.
    pub fn a3(&self) -> (r: u16)
        ensures
            r == (self.data / 4096) % 8,
    {
        (self.data / 4096) % 8
    }

    /// Red, in the four-bit layout.
    pub fn r4(&self) -> (r: u16)
        ensures
            r == (self.data / 256) % 16,
    {
        (self.data / 256) % 16
    }

    /// Green, in the four-bit layout.
    pub fn g4(&self) -> (r: u16)
        ensures
            r == (self.data / 16) % 16,
    {
        (self.data / 16) % 16
    }

    /// Blue, in the four-bit layout.
    pub fn b4(&self) -> (r: u16)
        ensures
            r == self.data % 16,
    {
        self.data % 16
    }

    /// The eight-bit color that this packed value stands for.
    pub fn as_pixel(self) -> (c: Rgba8)
        ensures
            c == rgb5a3_pixel(self.data as int),
    {
        if self.is_rgb5() {
            let r = convert_5_bits_to_8(self.r5());
            let g = convert_5_bits_to_8(self.g5());
            let b = convert_5_bits_to_8(self.b5());
            Rgba8 { r, g, b, a: 255 }
        } else {
            let a = convert_3_bits_to_8(self.a3());
            let r = convert_4_bits_to_8(self.r4());
            let g = convert_4_bits_to_8(self.g4());
            let b = convert_4_bits_to_8(self.b4());
            Rgba8 { r, g, b, a }
        }
    }
}

/// One of the weighted sums that a mean is made of: red, green and blue
/// weighted by count and alpha (`k` 0 to 2), alpha weighted by count (3),
/// and the count itself (4).
pub open spec fn mean_term(g: Grouped<Rgba8>, k: int) -> int {
    let w = g.count * g.data.a;
    if k == 0 {
        w * g.data.r
    } else if k == 1 {
        w * g.data.g
    } else if k == 2 {
        w * g.data.b
    } else if k == 3 {
        w
    } else {
        g.count as int
    }
}

/// The sum of `mean_term(_, k)` over the first `n` groups of `s`.
pub open spec fn mean_sum(s: Seq<Grouped<Rgba8>>, k: int, n: int) -> int
    decreases n,
{
    if n <= 0 {
        0
    } else {
        mean_sum(s, k, n - 1) + mean_term(s[n - 1], k)
    }
}

/// `x / d` rounded half up.
pub open spec fn round_div(x: int, d: int) -> int {
    (x + d / 2) / d
}

/// The weighted mean of a set of groups: red, green and blue are weighted by
/// count and by alpha, so that near-transparent colors barely count, and
/// alpha by count; each is rounded half up. Where no alpha weight is left the
/// mean is the transparent color.
pub open spec fn mean_spec(s: Seq<Grouped<Rgba8>>) -> Rgba8 {
    let n = s.len() as int;
    let wa = mean_sum(s, 3, n);
    if wa == 0 {
        transparent()
    } else {
        (Rgba8 {
            r: round_div(mean_sum(s, 0, n), wa) as u8,
            g: round_div(mean_sum(s, 1, n), wa) as u8,
            b: round_div(mean_sum(s, 2, n), wa) as u8,
            a: round_div(wa, mean_sum(s, 4, n)) as u8,
        }).canonical()
    }
}

proof fn lemma_mean_sum_bounds(s: Seq<Grouped<Rgba8>>, n: int)
    requires
        0 <= n <= s.len(),
    ensures
        0 <= mean_sum(s, 4, n) <= n * 4294967295,
        0 <= mean_sum(s, 3, n) <= 255 * mean_sum(s, 4, n),
        0 <= mean_sum(s, 0, n) <= 255 * mean_sum(s, 3, n),
        0 <= mean_sum(s, 1, n) <= 255 * mean_sum(s, 3, n),
        0 <= mean_sum(s, 2, n) <= 255 * mean_sum(s, 3, n),
    decreases n,
{
    if n > 0 {
        lemma_mean_sum_bounds(s, n - 1);
        let g = s[n - 1];
        let w = g.count * g.data.a;
        assert(0 <= w <= 255 * g.count) by (nonlinear_arith)
            requires
                w == g.count * g.data.a,
                0 <= g.data.a <= 255,
                0 <= g.count,
        ;
        assert(0 <= w * g.data.r <= 255 * w && 0 <= w * g.data.g <= 255 * w && 0 <= w * g.data.b
            <= 255 * w) by (nonlinear_arith)
            requires
                0 <= w,
                0 <= g.data.r <= 255,
                0 <= g.data.g <= 255,
                0 <= g.data.b <= 255,
        ;
    }
}

proof fn lemma_round_div_bound(x: int, d: int)
    requires
        0 <= x <= 255 * d,
        d > 0,
    ensures
        0 <= round_div(x, d) <= 255,
{
    let q = round_div(x, d);
    let h = d / 2;
    lemma_fundamental_div_mod(x + h, d);
    let r = (x + h) % d;
    assert(q * d + r == x + h);
    assert(0 <= q <= 255) by (nonlinear_arith)
        requires
            q * d + r == x + h,
            0 <= r < d,
            0 <= h < d,
            0 <= x <= 255 * d,
            d > 0,
    ;
}

/// `count * a * v`, without overflow.
fn weighted(count: u32, a: u8, v: u8) -> (w: u128)
    ensures
        w == count * a * v,
{
    assert(count * a <= 4294967295 * 255 && count * a * v <= 4294967295 * 255 * 255)
        by (nonlinear_arith)
        requires
            count <= 4294967295,
            a <= 255,
            v <= 255,
    ;
    let ca = count as u128 * a as u128;
    ca * v as u128
}

/// The weighted mean of the groups, as `mean_spec` defines it.
pub fn mean_of_colors(groups: &Vec<Grouped<Rgba8>>) -> (m: Rgba8)
    ensures
        m == mean_spec(groups@),
{
    let mut sr: u128 = 0;
    let mut sg: u128 = 0;
    let mut sb: u128 = 0;
    let mut sa: u128 = 0;
    let mut total: u128 = 0;
    let mut i: usize = 0;
    while i < groups.len()
        invariant
            i <= groups.len(),
            sr == mean_sum(groups@, 0, i as int),
            sg == mean_sum(groups@, 1, i as int),
            sb == mean_sum(groups@, 2, i as int),
            sa == mean_sum(groups@, 3, i as int),
            total == mean_sum(groups@, 4, i as int),
        decreases groups.len() - i,
    {
        proof {
            lemma_mean_sum_bounds(groups@, i + 1);
        }
        let g = groups[i];
        sr = sr + weighted(g.count, g.data.a, g.data.r);
        sg = sg + weighted(g.count, g.data.a, g.data.g);
        sb = sb + weighted(g.count, g.data.a, g.data.b);
        sa = sa + weighted(g.count, g.data.a, 1);
        total = total + g.count as u128;
        i = i + 1;
    }
    if sa == 0 {
        Rgba8 { r: 0, g: 0, b: 0, a: 0 }
    } else {
        proof {
            lemma_mean_sum_bounds(groups@, groups@.len() as int);
            lemma_round_div_bound(sr as int, sa as int);
            lemma_round_div_bound(sg as int, sa as int);
            lemma_round_div_bound(sb as int, sa as int);
            lemma_round_div_bound(sa as int, total as int);
        }
        Rgba8::new(
            ((sr + sa / 2) / sa) as u8,
            ((sg + sa / 2) / sa) as u8,
            ((sb + sa / 2) / sa) as u8,
            ((sa + total / 2) / total) as u8,
        )
    }
}

/// The distance is symmetric, and zero from a color to itself.
pub proof fn lemma_distance_symmetric(x: Rgba8, y: Rgba8)
    ensures
        color_distance(x, y) == color_distance(y, x),
        color_distance(x, x) == 0,
{
    assert(sq(x.r - y.r) == sq(y.r - x.r) && sq(x.g - y.g) == sq(y.g - x.g) && sq(x.b - y.b) == sq(
        y.b - x.b,
    ) && sq(x.a - y.a) == sq(y.a - x.a)) by (nonlinear_arith);
    let o = sq(x.r - y.r) + sq(x.g - y.g) + sq(x.b - y.b);
    assert(o * x.a * y.a == o * y.a * x.a) by (nonlinear_arith);
    assert(sq(x.r - x.r) + sq(x.g - x.g) + sq(x.b - x.b) == 0 && sq(x.a - x.a) == 0);
    assert(0 * x.a * x.a == 0) by (nonlinear_arith);
}

/// A transparent color stands for the one canonical transparent value,
/// whatever its red, green and blue.
pub proof fn lemma_transparent_collapse(c: Rgba8)
    requires
        c.a == 0,
    ensures
        c.canonical() == transparent(),
        c.canonical().is_canonical(),
{
}

/// A packed value made from any color comes back unchanged from the
/// eight-bit color it stands for.
#[verifier::spinoff_prover]
#[verifier::rlimit(60)]
pub proof fn lemma_rgb5a3_round_trip(c: Rgba8)
    ensures
        rgb5a3_data(rgb5a3_pixel(rgb5a3_data(c))) == rgb5a3_data(c),
        0 <= rgb5a3_data(c) < 65536,
{
    let level = narrow(c.a as int, 7);
    let data = rgb5a3_data(c);
    assert(0 <= level <= 7);
    if level == 0 {
        lemma_split(0, 0, 0, 0, 0, 16);
        assert(rgb5a3_pixel(0) == transparent());
    } else if level == 7 {
        let (r, g, b) = (narrow(c.r as int, 31), narrow(c.g as int, 31), narrow(c.b as int, 31));
        assert(0 <= r <= 31 && 0 <= g <= 31 && 0 <= b <= 31);
        assert(data == 1 * 32768 + r * 1024 + g * 32 + b);
        lemma_split(data, 1, r, g, b, 32);
        lemma_narrow_widen(r, 31);
        lemma_narrow_widen(g, 31);
        lemma_narrow_widen(b, 31);
        let px = rgb5a3_pixel(data);
        assert(px.r == widen(r, 31) && px.g == widen(g, 31) && px.b == widen(b, 31) && px.a == 255);
        assert(narrow(255, 7) == 7);
    } else {
        let (r, g, b) = (narrow(c.r as int, 15), narrow(c.g as int, 15), narrow(c.b as int, 15));
        assert(0 <= r <= 15 && 0 <= g <= 15 && 0 <= b <= 15);
        assert(data == level * 4096 + r * 256 + g * 16 + b);
        lemma_split(data, level, r, g, b, 16);
        lemma_narrow_widen(r, 15);
        lemma_narrow_widen(g, 15);
        lemma_narrow_widen(b, 15);
        lemma_narrow_widen(level, 7);
        assert(data < 32768);
        assert(level % 8 == level);
        let px = rgb5a3_pixel(data);
        assert(px.r == widen(r, 15) && px.g == widen(g, 15) && px.b == widen(b, 15) && px.a
            == widen(level, 7));
    }
}

/// Converting a color that is already an output color of a format gives it
/// back unchanged.
pub proof fn lemma_output_idempotent(t: ColorType, c: Rgba8)
    ensures
        output_of(t, output_of(t, c)) == output_of(t, c),
        output_of(t, c).is_canonical(),
{
    lemma_rgb5a3_round_trip(c);
    if t == ColorType::Rgb5a3 && rgb5a3_data(c) == 0 {
        lemma_split(0, 0, 0, 0, 0, 16);
    }
}

#[verifier::spinoff_prover]
proof fn lemma_narrow_widen(v: int, max: int)
    requires
        max == 31 || max == 15 || max == 7,
        0 <= v <= max,
    ensures
        narrow(widen(v, max), max) == v,
        0 <= widen(v, max) <= 255,
{
    if max == 31 {
        let x = v * 255 + 15;
        lemma_fundamental_div_mod(x, 31);
        let w = x / 31;
        let r = x % 31;
        assert(w * 31 + 127 == v * 255 + (127 + 15 - r));
        lemma_fundamental_div_mod_converse(w * 31 + 127, 255, v, 127 + 15 - r);
    } else if max == 15 {
        let x = v * 255 + 7;
        lemma_fundamental_div_mod(x, 15);
        let w = x / 15;
        let r = x % 15;
        assert(w * 15 + 127 == v * 255 + (127 + 7 - r));
        lemma_fundamental_div_mod_converse(w * 15 + 127, 255, v, 127 + 7 - r);
    } else {
        let x = v * 255 + 3;
        lemma_fundamental_div_mod(x, 7);
        let w = x / 7;
        let r = x % 7;
        assert(w * 7 + 127 == v * 255 + (127 + 3 - r));
        lemma_fundamental_div_mod_converse(w * 7 + 127, 255, v, 127 + 3 - r);
    }
}

#[verifier::spinoff_prover]
proof fn lemma_split(data: int, top: int, hi: int, mid: int, lo: int, unit: int)
    requires
        data == top * (unit * unit * unit) + hi * (unit * unit) + mid * unit + lo,
        unit == 32 || unit == 16,
        0 <= top,
        0 <= hi < unit,
        0 <= mid < unit,
        0 <= lo < unit,
    ensures
        (data / (unit * unit)) % unit == hi,
        (data / unit) % unit == mid,
        data % unit == lo,
        data / (unit * unit * unit) == top,
{
    if unit == 32 {
        assert(data == top * 32768 + hi * 1024 + mid * 32 + lo);
        lemma_fundamental_div_mod_converse(data, 32, top * 1024 + hi * 32 + mid, lo);
        lemma_fundamental_div_mod_converse(top * 1024 + hi * 32 + mid, 32, top * 32 + hi, mid);
        lemma_fundamental_div_mod_converse(data, 1024, top * 32 + hi, mid * 32 + lo);
        lemma_fundamental_div_mod_converse(top * 32 + hi, 32, top, hi);
        lemma_fundamental_div_mod_converse(data, 32768, top, hi * 1024 + mid * 32 + lo);
    } else {
        assert(data == top * 4096 + hi * 256 + mid * 16 + lo);
        lemma_fundamental_div_mod_converse(data, 16, top * 256 + hi * 16 + mid, lo);
        lemma_fundamental_div_mod_converse(top * 256 + hi * 16 + mid, 16, top * 16 + hi, mid);
        lemma_fundamental_div_mod_converse(data, 256, top * 16 + hi, mid * 16 + lo);
        lemma_fundamental_div_mod_converse(top * 16 + hi, 16, top, hi);
        lemma_fundamental_div_mod_converse(data, 4096, top, hi * 256 + mid * 16 + lo);
    }
}

} // verus!
