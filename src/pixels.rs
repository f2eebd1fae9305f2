use vstd::prelude::*;
use rand::distributions::Distribution;

verus! {

/// Named example colours.
pub trait ColorTrait {
    fn white() -> (p: Pixel)
        ensures
            p == (Pixel { r: 255, g: 255, b: 255, a: 255 }),
    ;

    fn black() -> (p: Pixel)
        ensures
            p == (Pixel { r: 0, g: 0, b: 0, a: 255 }),
    ;

    fn red() -> (p: Pixel)
        ensures
            p == (Pixel { r: 255, g: 0, b: 0, a: 255 }),
    ;

    fn green() -> (p: Pixel)
        ensures
            p == (Pixel { r: 0, g: 255, b: 0, a: 255 }),
    ;

    fn blue() -> (p: Pixel)
        ensures
            p == (Pixel { r: 0, g: 0, b: 255, a: 255 }),
    ;

    fn zero() -> (p: Pixel)
        ensures
            p == (Pixel { r: 0, g: 0, b: 0, a: 0 }),
    ;
}

/// Holder of the named example colours.
pub struct Colors;

impl ColorTrait for Colors {
    fn white() -> (p: Pixel) {
        Pixel { r: 255, g: 255, b: 255, a: 255 }
    }

    fn black() -> (p: Pixel) {
        Pixel { r: 0, g: 0, b: 0, a: 255 }
    }

    fn red() -> (p: Pixel) {
        Pixel { r: 255, g: 0, b: 0, a: 255 }
    }

    fn green() -> (p: Pixel) {
        Pixel { r: 0, g: 255, b: 0, a: 255 }
    }

    fn blue() -> (p: Pixel) {
        Pixel { r: 0, g: 0, b: 255, a: 255 }
    }

    fn zero() -> (p: Pixel) {
        Pixel { r: 0, g: 0, b: 0, a: 0 }
    }
}

/// Relies on rand's `Uniform` distribution over `0..=255`, sampled from
/// `rand::thread_rng`: any channel value may come back.
#[verifier::external_body]
fn random_channel() -> (c: u8) {
    let mut rng = rand::thread_rng();
    rand::distributions::Uniform::from(0..=255u8).sample(&mut rng)
}

/// An RGBA colour: four independent 8-bit channels.
#[derive(Clone, Copy, Debug, PartialEq, Eq, Structural, Hash)]
pub struct Pixel {
    pub r: u8,
    pub g: u8,
    pub b: u8,
    pub a: u8,
}

/// Opaque white.
pub open spec fn white() -> Pixel {
    Pixel { r: 255, g: 255, b: 255, a: 255 }
}

/// Squared Euclidean distance between two colours over all four channels.
pub open spec fn dist_sq(p: Pixel, q: Pixel) -> int {
    (p.r - q.r) * (p.r - q.r) + (p.g - q.g) * (p.g - q.g) + (p.b - q.b) * (p.b - q.b) + (p.a
        - q.a) * (p.a - q.a)
}

/// Two colours are at squared distance 0 exactly when they are equal.
pub proof fn lemma_dist_sq_zero(p: Pixel, q: Pixel)
    ensures
        dist_sq(p, q) >= 0,
        dist_sq(p, q) < 1 <==> p == q,
{
    let dr = p.r - q.r;
    let dg = p.g - q.g;
    let db = p.b - q.b;
    let da = p.a - q.a;
    assert(dr * dr >= 0 && dg * dg >= 0 && db * db >= 0 && da * da >= 0) by (nonlinear_arith);
    assert(dr * dr > 0 || dr == 0) by (nonlinear_arith);
    assert(dg * dg > 0 || dg == 0) by (nonlinear_arith);
    assert(db * db > 0 || db == 0) by (nonlinear_arith);
    assert(da * da > 0 || da == 0) by (nonlinear_arith);
    if dist_sq(p, q) < 1 {
        assert(p.r == q.r && p.g == q.g && p.b == q.b && p.a == q.a);
        assert(p == q);
    }
    if p == q {
        assert(dr * dr + dg * dg + db * db + da * da == 0) by (nonlinear_arith)
            requires dr == 0, dg == 0, db == 0, da == 0;
    }
}

/// Distance between two channel values.
pub open spec fn abs_diff(a: u8, b: u8) -> u8 {
    if a >= b { (a - b) as u8 } else { (b - a) as u8 }
}

/// Channel-wise absolute difference of two colours.
pub open spec fn diff_spec(p: Pixel, q: Pixel) -> Pixel {
    Pixel { r: abs_diff(p.r, q.r), g: abs_diff(p.g, q.g), b: abs_diff(p.b, q.b), a: abs_diff(p.a, q.a) }
}

fn channel_diff(a: u8, b: u8) -> (d: u8)
    ensures
        d == abs_diff(a, b),
{
    if a >= b { a - b } else { b - a }
}

impl Pixel {
    pub fn new(red: u8, green: u8, blue: u8, alpha: u8) -> (p: Pixel)
        ensures
            p == (Pixel { r: red, g: green, b: blue, a: alpha }),
    {
        Pixel { r: red, g: green, b: blue, a: alpha }
    }

    /// Squared Euclidean distance to `other` over all four channels.
    pub fn squared_distance(&self, other: &Pixel) -> (d: u32)
        ensures
            d == dist_sq(*self, *other),
    {
        let dr = self.r as i32 - other.r as i32;
        let dg = self.g as i32 - other.g as i32;
        let db = self.b as i32 - other.b as i32;
        let da = self.a as i32 - other.a as i32;
        assert(dr * dr <= 65025 && dg * dg <= 65025 && db * db <= 65025 && da * da <= 65025
            && dr * dr >= 0 && dg * dg >= 0 && db * db >= 0 && da * da >= 0) by (nonlinear_arith)
            requires -255 <= dr <= 255, -255 <= dg <= 255, -255 <= db <= 255, -255 <= da <= 255;
        (dr * dr + dg * dg + db * db + da * da) as u32
    }
    /// An opaque colour with random red, green and blue channels.
    pub fn random() -> (p: Pixel)
        ensures
            p.a == 255,
    {
        let r = random_channel();
        let g = random_channel();
        let b = random_channel();
        Pixel::new(r, g, b, 255)
    }

    /// Whether the red, green and blue channels are all 0.
    pub fn is_zero(&self) -> (z: bool)
        ensures
            z == (self.r == 0 && self.g == 0 && self.b == 0),
    {
        (self.r as u32 + self.g as u32 + self.b as u32) == 0
    }

    /// Channel-wise absolute difference.
    pub fn diff(&self, other: &Pixel) -> (d: Pixel)
        ensures
            d == diff_spec(*self, *other),
    {
        Pixel {
            r: channel_diff(self.r, other.r),
            g: channel_diff(self.g, other.g),
            b: channel_diff(self.b, other.b),
            a: channel_diff(self.a, other.a),
        }
    }

    /// This colour with the red channel replaced.
    pub fn set_red(self, red: u8) -> (p: Pixel)
        ensures
            p == (Pixel { r: red, ..self }),
    {
        Pixel { r: red, ..self }
    }

    /// This colour with the green channel replaced.
    pub fn set_green(self, green: u8) -> (p: Pixel)
        ensures
            p == (Pixel { g: green, ..self }),
    {
        Pixel { g: green, ..self }
    }

    /// This colour with the blue channel replaced.
    pub fn set_blue(self, blue: u8) -> (p: Pixel)
        ensures
            p == (Pixel { b: blue, ..self }),
    {
        Pixel { b: blue, ..self }
    }

    /// This colour with the alpha channel replaced.
    pub fn set_alpha(self, alpha: u8) -> (p: Pixel)
        ensures
            p == (Pixel { a: alpha, ..self }),
    {
        Pixel { a: alpha, ..self }
    }

    /// Replaces the red channel.
    pub fn set_red_mut(&mut self, red: u8)
        ensures
            *final(self) == (Pixel { r: red, ..*old(self) }),
    {
        self.r = red;
    }

    /// Replaces the green channel.
    pub fn set_green_mut(&mut self, green: u8)
        ensures
            *final(self) == (Pixel { g: green, ..*old(self) }),
    {
        self.g = green;
    }

    /// Replaces the blue channel.
    pub fn set_blue_mut(&mut self, blue: u8)
        ensures
            *final(self) == (Pixel { b: blue, ..*old(self) }),
    {
        self.b = blue;
    }

    /// Replaces the alpha channel.
    pub fn set_alpha_mut(&mut self, alpha: u8)
        ensures
            *final(self) == (Pixel { a: alpha, ..*old(self) }),
    {
        self.a = alpha;
    }
}

} // verus!
