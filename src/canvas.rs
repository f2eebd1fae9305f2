use vstd::prelude::*;
use crate::pixels::{Pixel, dist_sq, lemma_dist_sq_zero, white};
use crate::region::count_color;
use crate::utility::{grey_spec, lumiosity_spec, to_grey_lumiosity};

verus! {

/// A position on a canvas: column `x`, row `y`.
#[derive(Clone, Copy, Debug, PartialEq, Eq, Structural, Hash)]
pub struct Point {
    pub x: u32,
    pub y: u32,
}

/// A pixel together with the position it was read from.
#[derive(Clone, Copy, Debug, PartialEq, Eq, Structural)]
pub struct PixelWithCoordinate {
    pub coordinate: Point,
    pub pixel: Pixel,
}

/// Width and height of a canvas.
#[derive(Clone, Copy, Debug, PartialEq, Eq, Structural)]
pub struct Size {
    pub width: u32,
    pub height: u32,
}

/// An axis-aligned rectangle: its top-left corner and its size.
#[derive(Clone, Copy, Debug, PartialEq, Eq, Structural)]
pub struct Rect {
    pub start: Point,
    pub size: Size,
}

/// One 4-connected region of a single colour, as the list of its positions.
#[derive(Clone, Debug)]
pub struct Island {
    pub points: Vec<Point>,
}

/// Errors reported when an image is read from or written to a file.
#[derive(Debug)]
pub enum ImageError {
    Decoding(String),
    Encoding(String),
    Parameter(String),
    Limits(String),
    Unsupported(String),
    IoError(String),
}

/// The mathematical content of a canvas: its size and its pixels in
/// row-major order.
pub ghost struct CanvasView {
    pub width: nat,
    pub height: nat,
    pub pixels: Seq<Pixel>,
}

impl CanvasView {
    /// Size at least 1 by 1, a pixel count that fits in `u32`, and exactly
    /// one pixel per position.
    pub open spec fn wf(self) -> bool {
        &&& self.width >= 1
        &&& self.height >= 1
        &&& self.width * self.height <= u32::MAX
        &&& self.pixels.len() == self.width * self.height
    }

    pub open spec fn in_bounds(self, x: int, y: int) -> bool {
        0 <= x < self.width && 0 <= y < self.height
    }

    /// The pixel at column `x`, row `y`.
    pub open spec fn at(self, x: int, y: int) -> Pixel {
        self.pixels[index_of(self.width as int, x, y)]
    }

    /// The same canvas with the pixel at `(x, y)` replaced.
    pub open spec fn with_pixel(self, x: int, y: int, p: Pixel) -> CanvasView {
        CanvasView { pixels: self.pixels.update(index_of(self.width as int, x, y), p), ..self }
    }
}

/// Row-major position of column `x`, row `y` in a canvas `w` pixels wide.
pub open spec fn index_of(w: int, x: int, y: int) -> int {
    w * y + x
}

/// A canvas of `w` by `h` pixels whose pixel at `(x, y)` is `f(x, y)`.
pub open spec fn view_from_fn(w: nat, h: nat, f: spec_fn(int, int) -> Pixel) -> CanvasView {
    CanvasView {
        width: w,
        height: h,
        pixels: Seq::new(w * h, |i: int| f(i % (w as int), i / (w as int))),
    }
}

/// Clamps `v` into `0..=hi`.
pub open spec fn clamp_spec(v: int, hi: int) -> int {
    if v > hi { hi } else if v < 0 { 0 } else { v }
}

pub proof fn lemma_index_in_range(w: int, h: int, x: int, y: int)
    requires
        0 <= x < w,
        0 <= y < h,
    ensures
        0 <= index_of(w, x, y) < w * h,
        index_of(w, x, y) + 1 <= w * h,
{
    assert(0 <= w * y) by (nonlinear_arith) requires 0 <= y, 0 < w;
    assert(w * y + x < w * h) by (nonlinear_arith) requires 0 <= x < w, 0 <= y < h;
}

pub proof fn lemma_index_div_mod(w: int, x: int, y: int)
    requires
        0 <= x < w,
        0 <= y,
    ensures
        index_of(w, x, y) % w == x,
        index_of(w, x, y) / w == y,
{
    assert(w * y == y * w) by (nonlinear_arith);
    vstd::arithmetic::div_mod::lemma_fundamental_div_mod_converse(w * y + x, w, y, x);
}

pub proof fn lemma_index_injective(w: int, x1: int, y1: int, x2: int, y2: int)
    requires
        0 <= x1 < w,
        0 <= x2 < w,
        0 <= y1,
        0 <= y2,
    ensures
        (index_of(w, x1, y1) == index_of(w, x2, y2)) <==> (x1 == x2 && y1 == y2),
{
    lemma_index_div_mod(w, x1, y1);
    lemma_index_div_mod(w, x2, y2);
}

/// Every row-major position `i` of a canvas is the position of column
/// `i % w`, row `i / w`.
pub proof fn lemma_position_of_index(w: int, h: int, i: int)
    requires
        w >= 1,
        0 <= i < w * h,
    ensures
        0 <= i % w < w,
        0 <= i / w < h,
        index_of(w, i % w, i / w) == i,
{
    vstd::arithmetic::div_mod::lemma_fundamental_div_mod(i, w);
    assert(w * (i / w) == (i / w) * w) by (nonlinear_arith);
    assert(0 <= i / w) by (nonlinear_arith) requires 0 <= i, w >= 1;
    if i / w >= h {
        assert(w * (i / w) >= w * h) by (nonlinear_arith) requires i / w >= h, w >= 1;
    }
}

/// The pixel of `view_from_fn(w, h, f)` at `(x, y)` is `f(x, y)`.
pub proof fn lemma_view_from_fn_at(w: nat, h: nat, f: spec_fn(int, int) -> Pixel, x: int, y: int)
    requires
        0 <= x < w,
        0 <= y < h,
    ensures
        view_from_fn(w, h, f).at(x, y) == f(x, y),
{
    lemma_index_in_range(w as int, h as int, x, y);
    lemma_index_div_mod(w as int, x, y);
}

/// Two well-formed views of the same size that agree at every position are
/// equal.
pub proof fn lemma_view_ext(v1: CanvasView, v2: CanvasView)
    requires
        v1.wf(),
        v2.wf(),
        v1.width == v2.width,
        v1.height == v2.height,
        forall|x: int, y: int| v1.in_bounds(x, y) ==> #[trigger] v1.at(x, y) == v2.at(x, y),
    ensures
        v1 == v2,
{
    assert forall|i: int| 0 <= i < v1.pixels.len() implies v1.pixels[i] == v2.pixels[i] by {
        lemma_position_of_index(v1.width as int, v1.height as int, i);
        assert(v1.at(i % (v1.width as int), i / (v1.width as int)) == v2.at(
            i % (v1.width as int),
            i / (v1.width as int),
        ));
    }
    assert(v1.pixels =~= v2.pixels);
}

/// Replacing one pixel keeps a view well-formed and changes only that
/// position.
pub proof fn lemma_with_pixel_at(v: CanvasView, qx: int, qy: int, p: Pixel, x: int, y: int)
    requires
        v.wf(),
        v.in_bounds(qx, qy),
        v.in_bounds(x, y),
    ensures
        v.with_pixel(qx, qy, p).wf(),
        v.with_pixel(qx, qy, p).width == v.width,
        v.with_pixel(qx, qy, p).height == v.height,
        v.with_pixel(qx, qy, p).at(x, y) == if x == qx && y == qy { p } else { v.at(x, y) },
{
    lemma_index_in_range(v.width as int, v.height as int, qx, qy);
    lemma_index_in_range(v.width as int, v.height as int, x, y);
    lemma_index_injective(v.width as int, x, y, qx, qy);
}

/// A rectangular grid of pixels stored row by row.
#[derive(Clone, Debug)]
pub struct Canvas {
    pixels: Vec<Pixel>,
    height: u32,
    width: u32,
}

impl View for Canvas {
    type V = CanvasView;

    closed spec fn view(&self) -> CanvasView {
        CanvasView { width: self.width as nat, height: self.height as nat, pixels: self.pixels@ }
    }
}

/// Copies a sequence of pixels.
fn copy_pixels(src: &Vec<Pixel>) -> (r: Vec<Pixel>)
    ensures
        r@ == src@,
{
    let mut r: Vec<Pixel> = Vec::with_capacity(src.len());
    let mut i: usize = 0;
    while i < src.len()
        invariant
            i <= src.len(),
            r@ == src@.subrange(0, i as int),
        decreases src.len() - i,
    {
        r.push(src[i]);
        i += 1;
    }
    assert(r@ =~= src@);
    r
}

/// A vector of `n` copies of `p`.
fn filled(p: Pixel, n: usize) -> (r: Vec<Pixel>)
    ensures
        r@ == Seq::new(n as nat, |i: int| p),
{
    let mut r: Vec<Pixel> = Vec::with_capacity(n);
    let mut i: usize = 0;
    while i < n
        invariant
            i <= n,
            r@ == Seq::new(i as nat, |k: int| p),
        decreases n - i,
    {
        r.push(p);
        i += 1;
        assert(r@ =~= Seq::new(i as nat, |k: int| p));
    }
    r
}

impl Canvas {
    /// The canvas's invariant.
    pub open spec fn wf(&self) -> bool {
        self@.wf()
    }

    /// Creates a `width` by `height` canvas of opaque white; a zero size
    /// becomes 1.
    pub fn new(width: u32, height: u32) -> (c: Canvas)
        requires
            (if width == 0 { 1 } else { width as int }) * (if height == 0 { 1 } else { height as int })
                <= u32::MAX,
        ensures
            c.wf(),
            c@.width == (if width == 0 { 1 } else { width as nat }),
            c@.height == (if height == 0 { 1 } else { height as nat }),
            forall|i: int| 0 <= i < c@.pixels.len() ==> #[trigger] c@.pixels[i] == white(),
    {
        Canvas::new_with_background(width, height, Pixel::new(255, 255, 255, 255))
    }

    /// Creates a `width` by `height` canvas of colour `color`; a zero size
    /// becomes 1.
    pub fn new_with_background(width: u32, height: u32, color: Pixel) -> (c: Canvas)
        requires
            (if width == 0 { 1 } else { width as int }) * (if height == 0 { 1 } else { height as int })
                <= u32::MAX,
        ensures
            c.wf(),
            c@.width == (if width == 0 { 1 } else { width as nat }),
            c@.height == (if height == 0 { 1 } else { height as nat }),
            forall|i: int| 0 <= i < c@.pixels.len() ==> #[trigger] c@.pixels[i] == color,
    {
        let width = if width == 0 { 1 } else { width };
        let height = if height == 0 { 1 } else { height };
        let pixels = filled(color, (width * height) as usize);
        Canvas { pixels, height, width }
    }

    /// Creates a canvas that takes over `data`, row by row.
    pub fn new_with_data(width: u32, height: u32, data: Vec<Pixel>) -> (c: Canvas)
        requires
            width >= 1,
            height >= 1,
            width * height <= u32::MAX,
            data@.len() == width * height,
        ensures
            c.wf(),
            c@ == (CanvasView { width: width as nat, height: height as nat, pixels: data@ }),
    {
        Canvas { width, height, pixels: data }
    }

    /// Creates a `width` by `height` canvas from row-major RGBA bytes; `None`
    /// when the size is zero, too large, or does not match the byte count.
    pub fn from_rgba_bytes(width: u32, height: u32, bytes: &Vec<u8>) -> (r: Option<Canvas>)
        ensures
            r.is_some() <==> (width >= 1 && height >= 1 && width * height <= u32::MAX
                && bytes@.len() == 4 * width * height),
            r.is_some() ==> r.unwrap().wf() && r.unwrap()@.width == width && r.unwrap()@.height
                == height && forall|i: int|
                0 <= i < width * height ==> #[trigger] r.unwrap()@.pixels[i] == (Pixel {
                    r: bytes@[4 * i],
                    g: bytes@[4 * i + 1],
                    b: bytes@[4 * i + 2],
                    a: bytes@[4 * i + 3],
                }),
    {
        if width == 0 || height == 0 {
            return None;
        }
        proof {
            assert(width * height <= u32::MAX * u32::MAX) by (nonlinear_arith)
                requires width <= u32::MAX, height <= u32::MAX;
        }
        let n = width as u64 * height as u64;
        proof {
            assert(4 * width * height == 4 * (width * height)) by (nonlinear_arith);
        }
        if n > u32::MAX as u64 || bytes.len() as u64 != 4 * n {
            return None;
        }
        let mut pixels: Vec<Pixel> = Vec::with_capacity(n as usize);
        let len: usize = bytes.len();
        let mut i: usize = 0;
        while i < n as usize
            invariant
                len == bytes@.len(),
                n == width * height,
                n <= u32::MAX,
                bytes@.len() == 4 * n,
                i <= n,
                pixels@.len() == i,
                forall|k: int| 0 <= k < i ==> #[trigger] pixels@[k] == (Pixel {
                    r: bytes@[4 * k],
                    g: bytes@[4 * k + 1],
                    b: bytes@[4 * k + 2],
                    a: bytes@[4 * k + 3],
                }),
            decreases n - i,
        {
            assert(4 * i + 3 < bytes@.len());
            let p = Pixel::new(bytes[4 * i], bytes[4 * i + 1], bytes[4 * i + 2], bytes[4 * i + 3]);
            pixels.push(p);
            i += 1;
        }
        Some(Canvas { width, height, pixels })
    }

    /// The pixels as row-major RGBA bytes.
    pub fn to_rgba_bytes(&self) -> (r: Vec<u8>)
        requires
            self.wf(),
        ensures
            r@.len() == 4 * self@.pixels.len(),
            forall|i: int|
                0 <= i < self@.pixels.len() ==> {
                    &&& r@[4 * i] == #[trigger] self@.pixels[i].r
                    &&& r@[4 * i + 1] == self@.pixels[i].g
                    &&& r@[4 * i + 2] == self@.pixels[i].b
                    &&& r@[4 * i + 3] == self@.pixels[i].a
                },
    {
        let mut r: Vec<u8> = Vec::new();
        let mut i: usize = 0;
        while i < self.pixels.len()
            invariant
                self.wf(),
                i <= self.pixels@.len(),
                r@.len() == 4 * i,
                forall|k: int|
                    0 <= k < i ==> {
                        &&& r@[4 * k] == #[trigger] self.pixels@[k].r
                        &&& r@[4 * k + 1] == self.pixels@[k].g
                        &&& r@[4 * k + 2] == self.pixels@[k].b
                        &&& r@[4 * k + 3] == self.pixels@[k].a
                    },
            decreases self.pixels.len() - i,
        {
            let p = self.pixels[i];
            let ghost r0 = r@;
            r.push(p.r);
            r.push(p.g);
            r.push(p.b);
            r.push(p.a);
            assert(r@ == r0 + seq![p.r, p.g, p.b, p.a]);
            assert forall|k: int| 0 <= k < i + 1 implies {
                &&& r@[4 * k] == #[trigger] self.pixels@[k].r
                &&& r@[4 * k + 1] == self.pixels@[k].g
                &&& r@[4 * k + 2] == self.pixels@[k].b
                &&& r@[4 * k + 3] == self.pixels@[k].a
            } by {
                if k < i {
                    assert(r0[4 * k] == self.pixels@[k].r);
                }
            }
            i += 1;
        }
        r
    }

    /// A copy of this canvas.
    pub fn duplicate(&self) -> (c: Canvas)
        ensures
            c@ == self@,
    {
        Canvas { pixels: copy_pixels(&self.pixels), height: self.height, width: self.width }
    }

    /// Width and height.
    pub fn dimensions(&self) -> (s: Size)
        ensures
            s.width == self@.width,
            s.height == self@.height,
    {
        Size { width: self.width, height: self.height }
    }

    /// The pixels in row-major order.
    pub fn pixels(&self) -> (s: &[Pixel])
        ensures
            s@ == self@.pixels,
    {
        self.pixels.as_slice()
    }

    /// The pixel at `(x, y)`, with `x` and `y` first clamped into the canvas.
    pub fn get_pixel(&self, x: u32, y: u32) -> (p: Pixel)
        requires
            self.wf(),
        ensures
            p == self@.at(clamp_spec(x as int, self@.width - 1), clamp_spec(y as int, self@.height - 1)),
    {
        let x = if x > self.width - 1 { self.width - 1 } else { x };
        let y = if y > self.height - 1 { self.height - 1 } else { y };
        proof {
            lemma_index_in_range(self.width as int, self.height as int, x as int, y as int);
        }
        self.pixels[(self.width * y + x) as usize]
    }

    /// Sets the pixel at `(x, y)`, which must lie inside the canvas.
    pub fn set_pixel_mut(&mut self, x: u32, y: u32, pixel: &Pixel)
        requires
            old(self).wf(),
            x < old(self)@.width,
            y < old(self)@.height,
        ensures
            final(self).wf(),
            final(self)@ == old(self)@.with_pixel(x as int, y as int, *pixel),
    {
        proof {
            lemma_index_in_range(self.width as int, self.height as int, x as int, y as int);
        }
        let i = (self.width * y + x) as usize;
        self.pixels.set(i, *pixel);
    }

    /// Returns this canvas with the pixel at `(x, y)`, which must lie inside
    /// the canvas, set to `pixel`.
    pub fn set_pixel(self, x: u32, y: u32, pixel: &Pixel) -> (c: Canvas)
        requires
            self.wf(),
            x < self@.width,
            y < self@.height,
        ensures
            c.wf(),
            c@ == self@.with_pixel(x as int, y as int, *pixel),
    {
        let mut c = self;
        c.set_pixel_mut(x, y, pixel);
        c
    }
}


/// Number of pixels at squared distance below `limit` from `c`.
pub open spec fn count_near(s: Seq<Pixel>, c: Pixel, limit: int) -> nat
    decreases s.len(),
{
    if s.len() == 0 {
        0
    } else {
        count_near(s.drop_last(), c, limit) + if dist_sq(s.last(), c) < limit { 1nat } else { 0nat }
    }
}

/// `v` with every pixel at squared distance below `limit` from `find`
/// replaced by `replace`.
pub open spec fn replaced_view(v: CanvasView, find: Pixel, limit: int, replace: Pixel) -> CanvasView {
    CanvasView {
        pixels: Seq::new(
            v.pixels.len(),
            |i: int| if dist_sq(v.pixels[i], find) < limit { replace } else { v.pixels[i] },
        ),
        ..v
    }
}

/// `v` with every pixel equal to `find` replaced by `replace`.
pub open spec fn recolored_view(v: CanvasView, find: Pixel, replace: Pixel) -> CanvasView {
    CanvasView {
        pixels: Seq::new(v.pixels.len(), |i: int| if v.pixels[i] == find { replace } else { v.pixels[i] }),
        ..v
    }
}

/// Whether position `(x, y)` is one of those listed in `s`.
pub open spec fn lists_point(s: Seq<PixelWithCoordinate>, x: u32, y: u32) -> bool {
    exists|k: int| 0 <= k < s.len() && #[trigger] s[k].coordinate == Point { x, y }
}

/// `v` mirrored left to right.
pub open spec fn flipped_view(v: CanvasView) -> CanvasView {
    view_from_fn(v.width, v.height, |x: int, y: int| v.at(v.width - 1 - x, y))
}

/// `v` mirrored top to bottom.
pub open spec fn flopped_view(v: CanvasView) -> CanvasView {
    view_from_fn(v.width, v.height, |x: int, y: int| v.at(x, v.height - 1 - y))
}

/// `v` with every pixel turned into its luminosity grey.
pub open spec fn grey_view(v: CanvasView) -> CanvasView {
    CanvasView { pixels: Seq::new(v.pixels.len(), |i: int| grey_spec(lumiosity_spec(v.pixels[i]))), ..v }
}

proof fn lemma_count_near_exact(s: Seq<Pixel>, c: Pixel)
    ensures
        count_near(s, c, 1) == count_color(s, c),
    decreases s.len(),
{
    if s.len() > 0 {
        lemma_count_near_exact(s.drop_last(), c);
        lemma_dist_sq_zero(s.last(), c);
    }
}

impl Canvas {
    /// Number of pixels at squared distance below `limit` from `pixel`.
    fn count_near_pixels(&self, pixel: &Pixel, limit: u64) -> (n: u32)
        requires
            self.wf(),
        ensures
            n == count_near(self@.pixels, *pixel, limit as int),
    {
        let mut n: u32 = 0;
        let mut i: usize = 0;
        while i < self.pixels.len()
            invariant
                self.wf(),
                i <= self.pixels@.len(),
                n == count_near(self.pixels@.subrange(0, i as int), *pixel, limit as int),
                n <= i,
            decreases self.pixels.len() - i,
        {
            assert(self.pixels@.subrange(0, i + 1).drop_last() =~= self.pixels@.subrange(0, i as int));
            if (self.pixels[i].squared_distance(pixel) as u64) < limit {
                n += 1;
            }
            i += 1;
        }
        assert(self.pixels@.subrange(0, i as int) =~= self.pixels@);
        n
    }

    /// Number of pixels equal to `pixel`.
    pub fn count_pixels(&self, pixel: &Pixel) -> (n: u32)
        requires
            self.wf(),
        ensures
            n == count_color(self@.pixels, *pixel),
    {
        proof {
            lemma_count_near_exact(self@.pixels, *pixel);
        }
        self.count_near_pixels(pixel, 1)
    }

    /// Number of pixels closer than `distance` to `pixel` (Euclidean
    /// distance over the four channels).
    pub fn count_pixels_with_distance(&self, pixel: &Pixel, distance: u32) -> (n: u32)
        requires
            self.wf(),
        ensures
            n == count_near(self@.pixels, *pixel, distance * distance),
    {
        assert(distance * distance <= u32::MAX * u32::MAX) by (nonlinear_arith)
            requires distance <= u32::MAX;
        self.count_near_pixels(pixel, distance as u64 * distance as u64)
    }

    /// Replaces every pixel at squared distance below `limit` from
    /// `find_pixel`.
    fn replace_near(&mut self, find_pixel: &Pixel, limit: u64, replace_pixel: &Pixel)
        requires
            old(self).wf(),
        ensures
            final(self).wf(),
            final(self)@ == replaced_view(old(self)@, *find_pixel, limit as int, *replace_pixel),
    {
        let ghost v = self@;
        let mut i: usize = 0;
        while i < self.pixels.len()
            invariant
                self.wf(),
                self@.width == v.width,
                self@.height == v.height,
                self.pixels@.len() == v.pixels.len(),
                i <= v.pixels.len(),
                forall|k: int|
                    0 <= k < v.pixels.len() ==> #[trigger] self.pixels@[k] == if k < i && dist_sq(v.pixels[k], *find_pixel)
                        < limit {
                        *replace_pixel
                    } else {
                        v.pixels[k]
                    },
            decreases self.pixels.len() - i,
        {
            if (self.pixels[i].squared_distance(find_pixel) as u64) < limit {
                self.pixels.set(i, *replace_pixel);
            }
            i += 1;
        }
        assert(self@.pixels =~= replaced_view(v, *find_pixel, limit as int, *replace_pixel).pixels);
    }

    /// Replaces every pixel equal to `find_pixel` by `replace_pixel`.
    pub fn replace_pixel_with_mut(&mut self, find_pixel: &Pixel, replace_pixel: &Pixel)
        requires
            old(self).wf(),
        ensures
            final(self).wf(),
            final(self)@ == recolored_view(old(self)@, *find_pixel, *replace_pixel),
    {
        let ghost v = self@;
        self.replace_near(find_pixel, 1, replace_pixel);
        proof {
            assert forall|k: int| 0 <= k < v.pixels.len() implies #[trigger] self@.pixels[k] == recolored_view(
                v,
                *find_pixel,
                *replace_pixel,
            ).pixels[k] by {
                lemma_dist_sq_zero(v.pixels[k], *find_pixel);
            }
            assert(self@.pixels =~= recolored_view(v, *find_pixel, *replace_pixel).pixels);
        }
    }

    /// Returns this canvas with every pixel equal to `find_pixel` replaced by
    /// `replace_pixel`.
    pub fn replace_pixel_with(self, find_pixel: &Pixel, replace_pixel: &Pixel) -> (c: Canvas)
        requires
            self.wf(),
        ensures
            c.wf(),
            c@ == recolored_view(self@, *find_pixel, *replace_pixel),
    {
        let mut c = self;
        c.replace_pixel_with_mut(find_pixel, replace_pixel);
        c
    }

    /// Replaces every pixel closer than `distance` to `find_pixel` by
    /// `replace_pixel`.
    pub fn replace_pixel_with_distance_mut(&mut self, find_pixel: &Pixel, distance: u32, replace_pixel: &Pixel)
        requires
            old(self).wf(),
        ensures
            final(self).wf(),
            final(self)@ == replaced_view(old(self)@, *find_pixel, distance * distance, *replace_pixel),
    {
        assert(distance * distance <= u32::MAX * u32::MAX) by (nonlinear_arith)
            requires distance <= u32::MAX;
        self.replace_near(find_pixel, distance as u64 * distance as u64, replace_pixel);
    }

    /// Returns this canvas with every pixel closer than `distance` to
    /// `find_pixel` replaced by `replace_pixel`.
    pub fn replace_pixel_with_distance(self, find_pixel: &Pixel, distance: u32, replace_pixel: &Pixel) -> (c: Canvas)
        requires
            self.wf(),
        ensures
            c.wf(),
            c@ == replaced_view(self@, *find_pixel, distance * distance, *replace_pixel),
    {
        let mut c = self;
        c.replace_pixel_with_distance_mut(find_pixel, distance, replace_pixel);
        c
    }

    /// The pixels, row by row.
    pub fn iter(&self) -> (r: Vec<Pixel>)
        ensures
            r@ == self@.pixels,
    {
        copy_pixels(&self.pixels)
    }

    /// The position of the pixel stored at `index`.
    fn index_to_coordinate(&self, index: u32) -> (p: Point)
        requires
            self.wf(),
        ensures
            p.x == index as int % self@.width as int,
            p.y == index as int / self@.width as int,
    {
        Point { x: index % self.width, y: index / self.width }
    }

    /// Every pixel with its position, row by row.
    pub fn iter_with_coordinates(&self) -> (r: Vec<PixelWithCoordinate>)
        requires
            self.wf(),
        ensures
            r@.len() == self@.pixels.len(),
            forall|i: int|
                0 <= i < r@.len() ==> #[trigger] r@[i] == (PixelWithCoordinate {
                    coordinate: Point { x: (i % self@.width as int) as u32, y: (i / self@.width as int) as u32 },
                    pixel: self@.pixels[i],
                }),
    {
        let mut r: Vec<PixelWithCoordinate> = Vec::new();
        let mut i: usize = 0;
        while i < self.pixels.len()
            invariant
                self.wf(),
                i <= self.pixels@.len(),
                r@.len() == i,
                forall|k: int|
                    0 <= k < i ==> #[trigger] r@[k] == (PixelWithCoordinate {
                        coordinate: Point { x: (k % self@.width as int) as u32, y: (k / self@.width as int) as u32 },
                        pixel: self@.pixels[k],
                    }),
            decreases self.pixels.len() - i,
        {
            let coordinate = self.index_to_coordinate(i as u32);
            r.push(PixelWithCoordinate { coordinate, pixel: self.pixels[i] });
            i += 1;
        }
        r
    }

    /// A new canvas mirrored left to right.
    pub fn flip(&self) -> (c: Canvas)
        requires
            self.wf(),
        ensures
            c.wf(),
            c@ == flipped_view(self@),
    {
        let ghost v = self@;
        let n = self.pixels.len();
        let mut out: Vec<Pixel> = Vec::with_capacity(n);
        let mut i: usize = 0;
        while i < n
            invariant
                self.wf(),
                v == self@,
                n == v.pixels.len(),
                i <= n,
                out@.len() == i,
                forall|k: int|
                    0 <= k < i ==> #[trigger] out@[k] == v.at(v.width - 1 - k % (v.width as int), k / (v.width as int)),
            decreases n - i,
        {
            let x = (i as u32) % self.width;
            let y = (i as u32) / self.width;
            proof {
                lemma_position_of_index(v.width as int, v.height as int, i as int);
            }
            out.push(self.get_pixel(self.width - 1 - x, y));
            i += 1;
        }
        assert(out@ =~= flipped_view(v).pixels);
        Canvas { pixels: out, width: self.width, height: self.height }
    }

    /// A new canvas mirrored top to bottom.
    pub fn flop(&self) -> (c: Canvas)
        requires
            self.wf(),
        ensures
            c.wf(),
            c@ == flopped_view(self@),
    {
        let ghost v = self@;
        let n = self.pixels.len();
        let mut out: Vec<Pixel> = Vec::with_capacity(n);
        let mut i: usize = 0;
        while i < n
            invariant
                self.wf(),
                v == self@,
                n == v.pixels.len(),
                i <= n,
                out@.len() == i,
                forall|k: int|
                    0 <= k < i ==> #[trigger] out@[k] == v.at(k % (v.width as int), v.height - 1 - k / (v.width as int)),
            decreases n - i,
        {
            let x = (i as u32) % self.width;
            let y = (i as u32) / self.width;
            proof {
                lemma_position_of_index(v.width as int, v.height as int, i as int);
            }
            out.push(self.get_pixel(x, self.height - 1 - y));
            i += 1;
        }
        assert(out@ =~= flopped_view(v).pixels);
        Canvas { pixels: out, width: self.width, height: self.height }
    }

    /// A new canvas with every pixel turned into its luminosity grey.
    pub fn to_grey(&self) -> (c: Canvas)
        requires
            self.wf(),
        ensures
            c.wf(),
            c@ == grey_view(self@),
    {
        let mut c = self.duplicate();
        c.to_grey_mut();
        c
    }

    /// Turns every pixel into its luminosity grey.
    pub fn to_grey_mut(&mut self)
        requires
            old(self).wf(),
        ensures
            final(self).wf(),
            final(self)@ == grey_view(old(self)@),
    {
        let ghost v = self@;
        let mut i: usize = 0;
        while i < self.pixels.len()
            invariant
                self.wf(),
                self@.width == v.width,
                self@.height == v.height,
                self.pixels@.len() == v.pixels.len(),
                i <= v.pixels.len(),
                forall|k: int|
                    0 <= k < v.pixels.len() ==> #[trigger] self.pixels@[k] == if k < i {
                        grey_spec(lumiosity_spec(v.pixels[k]))
                    } else {
                        v.pixels[k]
                    },
            decreases self.pixels.len() - i,
        {
            let g = to_grey_lumiosity(&self.pixels[i]);
            self.pixels.set(i, g);
            i += 1;
        }
        assert(self@.pixels =~= grey_view(v).pixels);
    }

    /// Whether the signed position `(x, y)` lies inside the canvas.
    fn in_bounds(&self, x: i64, y: i64) -> (r: bool)
        requires
            self.wf(),
        ensures
            r == self@.in_bounds(x as int, y as int),
    {
        x >= 0 && x < self.width as i64 && y >= 0 && y < self.height as i64
    }

    /// Sets the pixel at the signed position `(x, y)` when it lies inside the
    /// canvas; does nothing otherwise.
    pub fn set_pixel_mut_signed(&mut self, x: i64, y: i64, pixel: &Pixel)
        requires
            old(self).wf(),
        ensures
            final(self).wf(),
            final(self)@ == if old(self)@.in_bounds(x as int, y as int) {
                old(self)@.with_pixel(x as int, y as int, *pixel)
            } else {
                old(self)@
            },
    {
        if self.in_bounds(x, y) {
            self.set_pixel_mut(x as u32, y as u32, pixel);
        }
    }
}

impl Canvas {
    /// A new canvas of the same size whose pixel at `(x, y)` is
    /// `filter(self, x, y)`.
    pub fn filter<F: Fn(&Canvas, u32, u32) -> Pixel>(&self, filter: F) -> (c: Canvas)
        requires
            self.wf(),
            forall|x: u32, y: u32|
                self@.in_bounds(x as int, y as int) ==> #[trigger] filter.requires((self, x, y)),
        ensures
            c.wf(),
            c@.width == self@.width,
            c@.height == self@.height,
            forall|x: u32, y: u32|
                self@.in_bounds(x as int, y as int) ==> #[trigger] filter.ensures((self, x, y), c@.at(x as int, y as int)),
    {
        let n = self.pixels.len();
        let mut out: Vec<Pixel> = Vec::with_capacity(n);
        let mut i: usize = 0;
        while i < n
            invariant
                self.wf(),
                n == self@.pixels.len(),
                i <= n,
                out@.len() == i,
                forall|x: u32, y: u32|
                    self@.in_bounds(x as int, y as int) ==> #[trigger] filter.requires((self, x, y)),
                forall|k: int|
                    0 <= k < i ==> filter.ensures(
                        (self, (k % self@.width as int) as u32, (k / self@.width as int) as u32),
                        #[trigger] out@[k],
                    ),
            decreases n - i,
        {
            proof {
                lemma_position_of_index(self.width as int, self.height as int, i as int);
            }
            let x = (i as u32) % self.width;
            let y = (i as u32) / self.width;
            let p = filter(self, x, y);
            out.push(p);
            proof {
                assert(out@[i as int] == p);
            }
            i += 1;
        }
        let c = Canvas { pixels: out, width: self.width, height: self.height };
        proof {
            assert forall|x: u32, y: u32| self@.in_bounds(x as int, y as int) implies #[trigger] filter.ensures(
                (self, x, y),
                c@.at(x as int, y as int),
            ) by {
                let k = index_of(self.width as int, x as int, y as int);
                lemma_index_in_range(self.width as int, self.height as int, x as int, y as int);
                lemma_index_div_mod(self.width as int, x as int, y as int);
                assert(filter.ensures((self, (k % self@.width as int) as u32, (k / self@.width as int) as u32), out@[k]));
            }
        }
        c
    }

    /// Every pixel, with its position, for which `predicate` holds, row by
    /// row.
    pub fn find_with_predicate<P: Fn(&Pixel, u32, u32) -> bool>(&self, predicate: P) -> (found: Vec<PixelWithCoordinate>)
        requires
            self.wf(),
            forall|p: Pixel, x: u32, y: u32| #[trigger] predicate.requires((&p, x, y)),
        ensures
            forall|k: int|
                0 <= k < found@.len() ==> {
                    let q = #[trigger] found@[k];
                    &&& self@.in_bounds(q.coordinate.x as int, q.coordinate.y as int)
                    &&& q.pixel == self@.at(q.coordinate.x as int, q.coordinate.y as int)
                    &&& predicate.ensures((&q.pixel, q.coordinate.x, q.coordinate.y), true)
                },
            forall|k1: int, k2: int|
                0 <= k1 < k2 < found@.len() ==> index_of(
                    self@.width as int,
                    #[trigger] found@[k1].coordinate.x as int,
                    found@[k1].coordinate.y as int,
                ) < index_of(self@.width as int, #[trigger] found@[k2].coordinate.x as int, found@[k2].coordinate.y as int),
            forall|x: u32, y: u32|
                self@.in_bounds(x as int, y as int) ==> lists_point(found@, x, y) || #[trigger] predicate.ensures(
                    (&self@.at(x as int, y as int), x, y),
                    false,
                ),
    {
        let ghost v = self@;
        let n = self.pixels.len();
        let mut found: Vec<PixelWithCoordinate> = Vec::new();
        let mut i: usize = 0;
        while i < n
            invariant
                self.wf(),
                v == self@,
                n == v.pixels.len(),
                i <= n,
                forall|p: Pixel, x: u32, y: u32| #[trigger] predicate.requires((&p, x, y)),
                forall|k: int|
                    0 <= k < found@.len() ==> {
                        let q = #[trigger] found@[k];
                        &&& v.in_bounds(q.coordinate.x as int, q.coordinate.y as int)
                        &&& q.pixel == v.at(q.coordinate.x as int, q.coordinate.y as int)
                        &&& predicate.ensures((&q.pixel, q.coordinate.x, q.coordinate.y), true)
                        &&& index_of(v.width as int, q.coordinate.x as int, q.coordinate.y as int) < i
                    },
                forall|k1: int, k2: int|
                    0 <= k1 < k2 < found@.len() ==> index_of(
                        v.width as int,
                        #[trigger] found@[k1].coordinate.x as int,
                        found@[k1].coordinate.y as int,
                    ) < index_of(v.width as int, #[trigger] found@[k2].coordinate.x as int, found@[k2].coordinate.y as int),
                forall|x: u32, y: u32|
                    v.in_bounds(x as int, y as int) && index_of(v.width as int, x as int, y as int) < i ==> lists_point(
                        found@,
                        x,
                        y,
                    ) || #[trigger] predicate.ensures((&v.at(x as int, y as int), x, y), false),
            decreases n - i,
        {
            proof {
                lemma_position_of_index(self.width as int, self.height as int, i as int);
            }
            let x = (i as u32) % self.width;
            let y = (i as u32) / self.width;
            let p = self.pixels[i];
            let ghost before = found@;
            let keep = predicate(&p, x, y);
            if keep {
                found.push(PixelWithCoordinate { coordinate: Point { x, y }, pixel: p });
            }
            proof {
                assert forall|k: int| 0 <= k < before.len() implies found@[k] == before[k] by {}
                assert forall|xx: u32, yy: u32|
                    v.in_bounds(xx as int, yy as int) && index_of(v.width as int, xx as int, yy as int) < i + 1 implies lists_point(
                    found@,
                    xx,
                    yy,
                ) || #[trigger] predicate.ensures((&v.at(xx as int, yy as int), xx, yy), false) by {
                    lemma_index_injective(v.width as int, xx as int, yy as int, x as int, y as int);
                    if index_of(v.width as int, xx as int, yy as int) < i {
                        if lists_point(before, xx, yy) {
                            let k = choose|k: int| 0 <= k < before.len() && #[trigger] before[k].coordinate == Point { x: xx, y: yy };
                            assert(found@[k] == before[k]);
                        }
                    } else if keep {
                        assert(found@[before.len() as int].coordinate == Point { x: xx, y: yy });
                    }
                }
            }
            i += 1;
        }
        proof {
            assert forall|x: u32, y: u32| v.in_bounds(x as int, y as int) implies lists_point(found@, x, y)
                || #[trigger] predicate.ensures((&v.at(x as int, y as int), x, y), false) by {
                lemma_index_in_range(v.width as int, v.height as int, x as int, y as int);
            }
        }
        found
    }
}

impl PartialEq for Canvas {
    fn eq(&self, other: &Canvas) -> (r: bool) {
        if self.width != other.width || self.height != other.height || self.pixels.len() != other.pixels.len() {
            return false;
        }
        let mut i: usize = 0;
        while i < self.pixels.len()
            invariant
                self.pixels@.len() == other.pixels@.len(),
                i <= self.pixels@.len(),
                forall|k: int| 0 <= k < i ==> self.pixels@[k] == other.pixels@[k],
            decreases self.pixels.len() - i,
        {
            if self.pixels[i] != other.pixels[i] {
                return false;
            }
            i += 1;
        }
        assert(self.pixels@ =~= other.pixels@);
        true
    }
}

impl vstd::std_specs::cmp::PartialEqSpecImpl for Canvas {
    open spec fn obeys_eq_spec() -> bool {
        true
    }

    open spec fn eq_spec(&self, other: &Canvas) -> bool {
        self@ == other@
    }
}
} // verus!
