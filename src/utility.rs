use vstd::prelude::*;
use crate::canvas::{Canvas, CanvasView, lemma_index_in_range};
use crate::pixels::{Pixel, diff_spec, dist_sq, white};
use crate::region::count_color;

verus! {

/// One channel of source-over compositing: `src` weighted by the source
/// alpha `sa` over `dst`, on the 0..=255 scale and rounded down.
pub open spec fn mix_spec(src: int, dst: int, sa: int) -> int {
    (src * sa + dst * (255 - sa)) / 255
}

/// `source` composited over `destination`; the alpha channel is mixed like
/// the colour channels.
pub open spec fn overlap_spec(destination: Pixel, source: Pixel) -> Pixel {
    Pixel {
        r: mix_spec(source.r as int, destination.r as int, source.a as int) as u8,
        g: mix_spec(source.g as int, destination.g as int, source.a as int) as u8,
        b: mix_spec(source.b as int, destination.b as int, source.a as int) as u8,
        a: mix_spec(source.a as int, destination.a as int, source.a as int) as u8,
    }
}

proof fn lemma_mix_bounds(src: int, dst: int, sa: int)
    requires
        0 <= src <= 255,
        0 <= dst <= 255,
        0 <= sa <= 255,
    ensures
        0 <= src * sa + dst * (255 - sa) <= 255 * 255,
        0 <= mix_spec(src, dst, sa) <= 255,
{
    assert(0 <= src * sa + dst * (255 - sa) <= 255 * 255) by (nonlinear_arith)
        requires 0 <= src <= 255, 0 <= dst <= 255, 0 <= sa <= 255;
}

/// Compositing an opaque source leaves exactly the source.
pub proof fn lemma_overlap_opaque(destination: Pixel, source: Pixel)
    requires
        source.a == 255,
    ensures
        overlap_spec(destination, source) == source,
{
    assert(mix_spec(source.r as int, destination.r as int, 255) == source.r as int);
    assert(mix_spec(source.g as int, destination.g as int, 255) == source.g as int);
    assert(mix_spec(source.b as int, destination.b as int, 255) == source.b as int);
    assert(mix_spec(255, destination.a as int, 255) == 255);
}

fn mix(src: u8, dst: u8, sa: u8) -> (r: u8)
    ensures
        r == mix_spec(src as int, dst as int, sa as int),
{
    proof {
        lemma_mix_bounds(src as int, dst as int, sa as int);
    }
    let total = src as u32 * sa as u32 + dst as u32 * (255 - sa as u32);
    (total / 255) as u8
}

/// Composites `source` over `destination` ("source over"): each channel is
/// `source * alpha + destination * (1 - alpha)` on the 0..=255 scale,
/// rounded down, where `alpha` is the source's alpha.
pub fn overlap_colors(destination: &Pixel, source: &Pixel) -> (p: Pixel)
    ensures
        p == overlap_spec(*destination, *source),
{
    Pixel {
        r: mix(source.r, destination.r, source.a),
        g: mix(source.g, destination.g, source.a),
        b: mix(source.b, destination.b, source.a),
        a: mix(source.a, destination.a, source.a),
    }
}



/// Largest of three values.
pub open spec fn max3_spec(a: u8, b: u8, c: u8) -> u8 {
    if a >= b && a >= c { a } else if b >= c { b } else { c }
}

/// Smallest of three values.
pub open spec fn min3_spec(a: u8, b: u8, c: u8) -> u8 {
    if a <= b && a <= c { a } else if b <= c { b } else { c }
}

/// The opaque grey whose three colour channels are `g`.
pub open spec fn grey_spec(g: u8) -> Pixel {
    Pixel { r: g, g: g, b: g, a: 255 }
}

/// Luminosity grey level: `0.21 r + 0.72 g + 0.07 b`, rounded down.
pub open spec fn lumiosity_spec(p: Pixel) -> u8 {
    ((21 * p.r + 72 * p.g + 7 * p.b) / 100) as u8
}

/// The opaque grey of three equal channels `grey`.
pub fn from_grey(grey: u8) -> (p: Pixel)
    ensures
        p == grey_spec(grey),
{
    Pixel { r: grey, g: grey, b: grey, a: 255 }
}

/// Largest of three values.
pub fn max(v1: u8, v2: u8, v3: u8) -> (r: u8)
    ensures
        r == max3_spec(v1, v2, v3),
{
    let m = if v2 >= v3 { v2 } else { v3 };
    if v1 >= m { v1 } else { m }
}

/// Smallest of three values.
pub fn min(v1: u8, v2: u8, v3: u8) -> (r: u8)
    ensures
        r == min3_spec(v1, v2, v3),
{
    let m = if v2 <= v3 { v2 } else { v3 };
    if v1 <= m { v1 } else { m }
}

/// `val` clamped into `min..=max`; `min` must be below `max`.
pub fn clamp(min: u32, max: u32, val: u32) -> (r: u32)
    requires
        min < max,
    ensures
        r == (if val > max { max } else if val < min { min } else { val }),
{
    if val > max {
        return max;
    }
    if val < min {
        return min;
    }
    val
}

/// Grey of level `max(r, g, b) + min(r, g, b) / 2`, which must fit in a
/// channel.
pub fn to_grey_lightness(p: &Pixel) -> (q: Pixel)
    requires
        max3_spec(p.r, p.g, p.b) + min3_spec(p.r, p.g, p.b) / 2 <= 255,
    ensures
        q == grey_spec((max3_spec(p.r, p.g, p.b) + min3_spec(p.r, p.g, p.b) / 2) as u8),
{
    let lightness = max(p.r, p.g, p.b) + min(p.r, p.g, p.b) / 2;
    from_grey(lightness)
}

/// Grey of level `(r + g + b) / 3`; the sum must fit in a channel.
pub fn to_grey_average(p: &Pixel) -> (q: Pixel)
    requires
        p.r + p.g + p.b <= 255,
    ensures
        q == grey_spec(((p.r + p.g + p.b) / 3) as u8),
{
    let average = (p.r + p.g + p.b) / 3;
    from_grey(average)
}

/// Grey of level `0.21 r + 0.72 g + 0.07 b`, rounded down.
pub fn to_grey_lumiosity(p: &Pixel) -> (q: Pixel)
    ensures
        q == grey_spec(lumiosity_spec(*p)),
{
    let value = (21 * p.r as u32 + 72 * p.g as u32 + 7 * p.b as u32) / 100;
    from_grey(value as u8)
}

/// Grey of level `0.299 r + 0.587 g + 0.114 b`, rounded down.
pub fn to_grey_mean(p: &Pixel) -> (q: Pixel)
    ensures
        q == grey_spec(((299 * p.r + 587 * p.g + 114 * p.b) / 1000) as u8),
{
    let value = (299 * p.r as u32 + 587 * p.g as u32 + 114 * p.b as u32) / 1000;
    from_grey(value as u8)
}

/// Squares of the channel differences `p1 - p2`; each channel of `p1` must
/// be at least that of `p2`, and each square must fit in a channel.
pub fn diff_squared(p1: &Pixel, p2: &Pixel) -> (r: (u32, u32, u32, u32))
    requires
        p2.r <= p1.r < p2.r + 16,
        p2.g <= p1.g < p2.g + 16,
        p2.b <= p1.b < p2.b + 16,
        p2.a <= p1.a < p2.a + 16,
    ensures
        r.0 == (p1.r - p2.r) * (p1.r - p2.r),
        r.1 == (p1.g - p2.g) * (p1.g - p2.g),
        r.2 == (p1.b - p2.b) * (p1.b - p2.b),
        r.3 == (p1.a - p2.a) * (p1.a - p2.a),
{
    let dr = p1.r - p2.r;
    let dg = p1.g - p2.g;
    let db = p1.b - p2.b;
    let da = p1.a - p2.a;
    assert(dr * dr < 256 && dg * dg < 256 && db * db < 256 && da * da < 256) by (nonlinear_arith)
        requires dr < 16, dg < 16, db < 16, da < 16;
    ((dr * dr) as u32, (dg * dg) as u32, (db * db) as u32, (da * da) as u32)
}

/// `v1` and `v2` compared pixel by pixel: their channel-wise differences when
/// both have the same size, else `v1` itself.
pub open spec fn diff_view(v1: CanvasView, v2: CanvasView) -> CanvasView {
    if v1.width == v2.width && v1.height == v2.height {
        CanvasView { pixels: Seq::new(v1.pixels.len(), |i: int| diff_spec(v1.pixels[i], v2.pixels[i])), ..v1 }
    } else {
        v1
    }
}

/// Sum of the squared channel differences over rows `0..y` of column `x`.
pub open spec fn error_column(v1: CanvasView, v2: CanvasView, x: int, y: nat) -> nat
    decreases y,
{
    if y == 0 {
        0
    } else {
        error_column(v1, v2, x, (y - 1) as nat) + dist_sq(v1.at(x, y - 1), v2.at(x, y - 1)) as nat
    }
}

/// Sum of the squared channel differences over columns `0..x`, rows `0..h`.
pub open spec fn error_sum(v1: CanvasView, v2: CanvasView, x: nat, h: nat) -> nat
    decreases x,
{
    if x == 0 {
        0
    } else {
        error_sum(v1, v2, (x - 1) as nat, h) + error_column(v1, v2, x - 1, h)
    }
}

proof fn lemma_count_color_bound(s: Seq<Pixel>, c: Pixel)
    ensures
        count_color(s, c) <= s.len(),
        (forall|j: int| 0 <= j < s.len() ==> s[j] != c) ==> count_color(s, c) == 0,
    decreases s.len(),
{
    if s.len() > 0 {
        lemma_count_color_bound(s.drop_last(), c);
    }
}

/// Whether `p` is one of the colours listed in `s`.
pub open spec fn lists_color(s: Seq<(Pixel, usize)>, p: Pixel) -> bool {
    exists|k: int| 0 <= k < s.len() && #[trigger] s[k].0 == p
}

/// Each colour of `c` with its number of pixels, in order of first
/// appearance.
pub fn count_colors(c: &Canvas) -> (counts: Vec<(Pixel, usize)>)
    requires
        c.wf(),
    ensures
        forall|k1: int, k2: int|
            0 <= k1 < counts@.len() && 0 <= k2 < counts@.len() && k1 != k2 ==> #[trigger] counts@[k1].0
                != #[trigger] counts@[k2].0,
        forall|k: int|
            0 <= k < counts@.len() ==> #[trigger] counts@[k].1 == count_color(c@.pixels, counts@[k].0)
                && counts@[k].1 >= 1,
        forall|j: int| 0 <= j < c@.pixels.len() ==> lists_color(counts@, #[trigger] c@.pixels[j]),
{
    let px = c.pixels();
    let mut counts: Vec<(Pixel, usize)> = Vec::new();
    let mut i: usize = 0;
    while i < px.len()
        invariant
            px@ == c@.pixels,
            i <= px@.len(),
            forall|k1: int, k2: int|
                0 <= k1 < counts@.len() && 0 <= k2 < counts@.len() && k1 != k2 ==> #[trigger] counts@[k1].0
                    != #[trigger] counts@[k2].0,
            forall|k: int|
                0 <= k < counts@.len() ==> #[trigger] counts@[k].1 == count_color(px@.subrange(0, i as int), counts@[k].0)
                    && counts@[k].1 >= 1,
            forall|j: int| 0 <= j < i ==> lists_color(counts@, #[trigger] px@[j]),
        decreases px.len() - i,
    {
        let p = px[i];
        let ghost pre = px@.subrange(0, i as int);
        let ghost next = px@.subrange(0, i + 1);
        assert(next.drop_last() =~= pre);
        assert(next.last() == p);
        let ghost before = counts@;
        let mut k: usize = 0;
        let mut found = false;
        while k < counts.len() && !found
            invariant
                counts@ == before,
                k <= counts@.len(),
                found ==> k < counts@.len() && counts@[k as int].0 == p,
                forall|m: int| 0 <= m < k ==> counts@[m].0 != p,
            decreases counts.len() - k, if found { 0int } else { 1int },
        {
            if counts[k].0 == p {
                found = true;
            } else {
                k += 1;
            }
        }
        proof {
            lemma_count_color_bound(pre, p);
        }
        if found {
            let n = counts[k].1;
            counts.set(k, (p, n + 1));
        } else {
            proof {
                assert forall|j: int| 0 <= j < pre.len() implies pre[j] != p by {
                    let m = choose|m: int| 0 <= m < before.len() && #[trigger] before[m].0 == px@[j];
                }
            }
            counts.push((p, 1));
        }
        proof {
            assert forall|k2: int| 0 <= k2 < counts@.len() implies #[trigger] counts@[k2].1 == count_color(
                next,
                counts@[k2].0,
            ) && counts@[k2].1 >= 1 by {
                if k2 < before.len() {
                    assert(before[k2].1 == count_color(pre, before[k2].0));
                }
            }
            assert forall|j: int| 0 <= j < i + 1 implies lists_color(counts@, #[trigger] px@[j]) by {
                if j < i {
                    let m = choose|m: int| 0 <= m < before.len() && #[trigger] before[m].0 == px@[j];
                    assert(counts@[m].0 == px@[j]);
                } else if found {
                    assert(counts@[k as int].0 == px@[j]);
                } else {
                    assert(counts@[before.len() as int].0 == px@[j]);
                }
            }
        }
        i += 1;
    }
    assert(px@.subrange(0, i as int) =~= px@);
    assert forall|j: int| 0 <= j < c@.pixels.len() implies lists_color(counts@, #[trigger] c@.pixels[j]) by {
        assert(px@[j] == c@.pixels[j]);
    }
    counts
}

/// A one-pixel white canvas.
pub fn diff(c1: &Canvas, c2: &Canvas) -> (c: Canvas)
    ensures
        c.wf(),
        c@.width == 1,
        c@.height == 1,
        c@.pixels == seq![white()],
{
    let c = Canvas::new(1, 1);
    assert(c@.pixels =~= seq![white()]);
    c
}

/// The channel-wise differences of two canvases of the same size; a copy of
/// `c1` when their sizes differ.
pub fn diff_debug(c1: &Canvas, c2: &Canvas) -> (c: Canvas)
    requires
        c1.wf(),
        c2.wf(),
    ensures
        c.wf(),
        c@ == diff_view(c1@, c2@),
{
    let d1 = c1.dimensions();
    let d2 = c2.dimensions();
    if d1.width == d2.width && d1.height == d2.height {
        let p1 = c1.pixels();
        let p2 = c2.pixels();
        let mut out: Vec<Pixel> = Vec::with_capacity(p1.len());
        let mut i: usize = 0;
        while i < p1.len()
            invariant
                p1@ == c1@.pixels,
                p2@ == c2@.pixels,
                p1@.len() == p2@.len(),
                i <= p1@.len(),
                out@.len() == i,
                forall|k: int| 0 <= k < i ==> #[trigger] out@[k] == diff_spec(p1@[k], p2@[k]),
            decreases p1.len() - i,
        {
            out.push(p1[i].diff(&p2[i]));
            i += 1;
        }
        assert(out@ =~= diff_view(c1@, c2@).pixels);
        Canvas::new_with_data(d1.width, d1.height, out)
    } else {
        c1.duplicate()
    }
}

/// Mean squared channel difference over the area the two canvases share,
/// rounded down.
pub fn error(c1: &Canvas, c2: &Canvas) -> (e: u128)
    requires
        c1.wf(),
        c2.wf(),
    ensures
        ({
            let w = if c1@.width <= c2@.width { c1@.width } else { c2@.width };
            let h = if c1@.height <= c2@.height { c1@.height } else { c2@.height };
            e == error_sum(c1@, c2@, w, h) / (4 * w * h)
        }),
{
    let d1 = c1.dimensions();
    let d2 = c2.dimensions();
    let width = if d1.width <= d2.width { d1.width } else { d2.width };
    let height = if d1.height <= d2.height { d1.height } else { d2.height };
    proof {
        assert(width * height <= c1@.width * c1@.height) by (nonlinear_arith)
            requires 1 <= width <= c1@.width, 1 <= height <= c1@.height;
    }
    let mut total: u128 = 0;
    let mut x: u32 = 0;
    while x < width
        invariant
            c1.wf(),
            c2.wf(),
            width <= c1@.width,
            width <= c2@.width,
            height <= c1@.height,
            height <= c2@.height,
            width * height <= u32::MAX,
            x <= width,
            total == error_sum(c1@, c2@, x as nat, height as nat),
            total <= x * height * 260100,
        decreases width - x,
    {
        let mut y: u32 = 0;
        let ghost base = total;
        while y < height
            invariant
                c1.wf(),
                c2.wf(),
                width <= c1@.width,
                width <= c2@.width,
                height <= c1@.height,
                height <= c2@.height,
                width * height <= u32::MAX,
                x < width,
                y <= height,
                base == error_sum(c1@, c2@, x as nat, height as nat),
                base <= x * height * 260100,
                total == base + error_column(c1@, c2@, x as int, y as nat),
                total <= x * height * 260100 + y * 260100,
            decreases height - y,
        {
            let p1 = c1.get_pixel(x, y);
            let p2 = c2.get_pixel(x, y);
            let d = p1.diff(&p2);
            assert(d.r * d.r <= 65025 && d.g * d.g <= 65025 && d.b * d.b <= 65025 && d.a * d.a <= 65025)
                by (nonlinear_arith) requires d.r <= 255, d.g <= 255, d.b <= 255, d.a <= 255;
            let sq = d.r as u128 * d.r as u128 + d.g as u128 * d.g as u128 + d.b as u128 * d.b as u128
                + d.a as u128 * d.a as u128;
            proof {
                assert(sq == dist_sq(p1, p2)) by (nonlinear_arith)
                    requires
                        d == diff_spec(p1, p2),
                        sq == d.r * d.r + d.g * d.g + d.b * d.b + d.a * d.a;
                assert(sq <= 260100) by (nonlinear_arith)
                    requires sq == d.r * d.r + d.g * d.g + d.b * d.b + d.a * d.a, d.r <= 255, d.g <= 255, d.b <= 255, d.a <= 255;
                assert(x * height * 260100 + (y + 1) * 260100 <= (u32::MAX as int) * 260100 + 260100) by (nonlinear_arith)
                    requires x < width, y < height, width * height <= u32::MAX;
            }
            total = total + sq;
            y += 1;
        }
        proof {
            assert(x * height * 260100 + height * 260100 == (x + 1) * height * 260100) by (nonlinear_arith);
        }
        x += 1;
    }
    proof {
        assert(4 * width * height <= 4 * (u32::MAX as int)) by (nonlinear_arith)
            requires width * height <= u32::MAX;
        assert(4 * width * height >= 4) by (nonlinear_arith)
            requires width >= 1, height >= 1;
    }
    let area = 4 * width as u128 * height as u128;
    total / area
}
} // verus!
