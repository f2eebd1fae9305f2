use vstd::prelude::*;
use crate::canvas::{Canvas, CanvasView, lemma_view_ext, lemma_view_from_fn_at, lemma_with_pixel_at,
    view_from_fn};
use crate::canvas::{Island, Point};
use crate::pixels::{Pixel, white};
use crate::utility::{overlap_colors, overlap_spec};

verus! {

/// What drawing `source` over `destination` leaves at one position: the
/// composite when `blend`, else `source` itself.
pub open spec fn combine_spec(destination: Pixel, source: Pixel, blend: bool) -> Pixel {
    if blend { overlap_spec(destination, source) } else { source }
}

/// `dst` with `src` placed with its top-left corner at `(x, y)`; positions
/// of `src` that fall outside `dst` are dropped.
pub open spec fn placed_view(dst: CanvasView, x: int, y: int, src: CanvasView, blend: bool) -> CanvasView {
    view_from_fn(
        dst.width,
        dst.height,
        |a: int, b: int|
            if x <= a < x + src.width && y <= b < y + src.height {
                combine_spec(dst.at(a, b), src.at(a - x, b - y), blend)
            } else {
                dst.at(a, b)
            },
    )
}

impl Canvas {
    /// Places `canvas` with its top-left corner at `(x, y)`, compositing when
    /// `blend`, overwriting otherwise.
    fn place(&mut self, x: u32, y: u32, canvas: &Canvas, blend: bool)
        requires
            old(self).wf(),
            canvas.wf(),
        ensures
            final(self).wf(),
            final(self)@ == placed_view(old(self)@, x as int, y as int, canvas@, blend),
    {
        let ghost d = self@;
        let ghost sv = canvas@;
        let dims = self.dimensions();
        let src = canvas.dimensions();
        let cw: u32 = if x >= dims.width { 0 } else if src.width < dims.width - x { src.width } else { dims.width - x };
        let ch: u32 = if y >= dims.height { 0 } else if src.height < dims.height - y { src.height } else { dims.height - y };
        let mut j: u32 = 0;
        while j < ch
            invariant
                self.wf(),
                canvas.wf(),
                canvas@ == sv,
                self@.width == d.width,
                self@.height == d.height,
                d.wf(),
                dims.width == d.width,
                dims.height == d.height,
                src.width == sv.width,
                src.height == sv.height,
                cw <= sv.width,
                ch <= sv.height,
                cw == 0 || x + cw <= d.width,
                ch == 0 || y + ch <= d.height,
                cw == 0 ==> (x >= d.width || sv.width == 0),
                cw > 0 ==> cw == (if x + sv.width <= d.width { sv.width as int } else { d.width - x }),
                ch > 0 ==> ch == (if y + sv.height <= d.height { sv.height as int } else { d.height - y }),
                ch == 0 ==> y >= d.height,
                j <= ch,
                forall|a: int, b: int|
                    d.in_bounds(a, b) ==> #[trigger] self@.at(a, b) == if x <= a < x + cw && y <= b < y + j {
                        combine_spec(d.at(a, b), sv.at(a - x, b - y), blend)
                    } else {
                        d.at(a, b)
                    },
            decreases ch - j,
        {
            let mut i: u32 = 0;
            while i < cw
                invariant
                    self.wf(),
                    canvas.wf(),
                    canvas@ == sv,
                    self@.width == d.width,
                    self@.height == d.height,
                    d.wf(),
                    cw <= sv.width,
                    ch <= sv.height,
                    cw == 0 || x + cw <= d.width,
                    ch == 0 || y + ch <= d.height,
                    j < ch,
                    i <= cw,
                    dims.width == d.width,
                    dims.height == d.height,
                    forall|a: int, b: int|
                        d.in_bounds(a, b) ==> #[trigger] self@.at(a, b) == if x <= a < x + cw && y <= b < y + j
                            || (b == y + j && x <= a < x + i) {
                            combine_spec(d.at(a, b), sv.at(a - x, b - y), blend)
                        } else {
                            d.at(a, b)
                        },
                decreases cw - i,
            {
                let s = canvas.get_pixel(i, j);
                let ghost before = self@;
                let np = if blend {
                    let dp = self.get_pixel(x + i, y + j);
                    overlap_colors(&dp, &s)
                } else {
                    s
                };
                proof {
                    assert(before.at((x + i) as int, (y + j) as int) == d.at((x + i) as int, (y + j) as int));
                }
                self.set_pixel_mut(x + i, y + j, &np);
                proof {
                    assert forall|a: int, b: int| d.in_bounds(a, b) implies #[trigger] self@.at(a, b) == if x <= a < x + cw
                        && y <= b < y + j || (b == y + j && x <= a < x + i + 1) {
                        combine_spec(d.at(a, b), sv.at(a - x, b - y), blend)
                    } else {
                        d.at(a, b)
                    } by {
                        lemma_with_pixel_at(before, (x + i) as int, (y + j) as int, np, a, b);
                        assert(before.at(a, b) == if x <= a < x + cw && y <= b < y + j || (b == y + j && x <= a < x
                            + i) {
                            combine_spec(d.at(a, b), sv.at(a - x, b - y), blend)
                        } else {
                            d.at(a, b)
                        });
                    }
                }
                i += 1;
            }
            j += 1;
        }
        proof {
            let f = |a: int, b: int|
                if x <= a < x + sv.width && y <= b < y + sv.height {
                    combine_spec(d.at(a, b), sv.at(a - x, b - y), blend)
                } else {
                    d.at(a, b)
                };
            assert forall|a: int, b: int| d.in_bounds(a, b) implies #[trigger] self@.at(a, b) == placed_view(
                d,
                x as int,
                y as int,
                sv,
                blend,
            ).at(a, b) by {
                lemma_view_from_fn_at(d.width, d.height, f, a, b);
            }
            lemma_view_ext(self@, placed_view(d, x as int, y as int, sv, blend));
        }
    }

    /// Composites `canvas` onto this canvas with its top-left corner at
    /// `(x, y)`; what falls outside is dropped.
    pub fn draw_subimage_mut(&mut self, x: u32, y: u32, canvas: &Canvas)
        requires
            old(self).wf(),
            canvas.wf(),
        ensures
            final(self).wf(),
            final(self)@ == placed_view(old(self)@, x as int, y as int, canvas@, true),
    {
        self.place(x, y, canvas, true);
    }

    /// Copies `canvas` into this canvas with its top-left corner at `(x, y)`,
    /// without blending; what falls outside is dropped.
    pub fn set_subimage_mut(&mut self, x: u32, y: u32, canvas: &Canvas)
        requires
            old(self).wf(),
            canvas.wf(),
        ensures
            final(self).wf(),
            final(self)@ == placed_view(old(self)@, x as int, y as int, canvas@, false),
    {
        self.place(x, y, canvas, false);
    }

    /// Returns this canvas with `canvas` composited onto it at `(x, y)`.
    pub fn draw_subimage(self, x: u32, y: u32, canvas: &Canvas) -> (c: Canvas)
        requires
            self.wf(),
            canvas.wf(),
        ensures
            c.wf(),
            c@ == placed_view(self@, x as int, y as int, canvas@, true),
    {
        let mut c = self;
        c.place(x, y, canvas, true);
        c
    }

    /// Returns this canvas with `canvas` copied into it at `(x, y)`.
    pub fn set_subimage(self, x: u32, y: u32, canvas: &Canvas) -> (c: Canvas)
        requires
            self.wf(),
            canvas.wf(),
        ensures
            c.wf(),
            c@ == placed_view(self@, x as int, y as int, canvas@, false),
    {
        let mut c = self;
        c.place(x, y, canvas, false);
        c
    }
}


/// `0` becomes `1`.
pub open spec fn at_least_one(n: int) -> nat {
    if n <= 0 { 1 } else { n as nat }
}

/// An all-white canvas of `w` by `h` pixels.
pub open spec fn blank_view(w: nat, h: nat) -> CanvasView {
    view_from_fn(w, h, |a: int, b: int| white())
}

/// `v` cut or padded with white to `w` by `h` pixels (each at least 1),
/// anchored at the top-left corner.
pub open spec fn resized_view(v: CanvasView, w: int, h: int) -> CanvasView {
    placed_view(blank_view(at_least_one(w), at_least_one(h)), 0, 0, v, false)
}

/// The `width` by `height` part of `v` whose top-left corner is `(x, y)`,
/// cut at the canvas's edge; an empty part gives one white pixel in that
/// direction.
pub open spec fn subimage_view(v: CanvasView, x: int, y: int, width: int, height: int) -> CanvasView {
    let cw = if width < v.width - x { width } else { v.width - x };
    let ch = if height < v.height - y { height } else { v.height - y };
    view_from_fn(
        at_least_one(cw),
        at_least_one(ch),
        |i: int, j: int| if i < cw && j < ch { v.at(x + i, y + j) } else { white() },
    )
}

proof fn lemma_product_le(a: int, b: int, c: int, d: int)
    requires
        0 <= a <= c,
        0 <= b <= d,
    ensures
        a * b <= c * d,
{
    assert(a * b <= c * d) by (nonlinear_arith) requires 0 <= a <= c, 0 <= b <= d;
}

impl Canvas {
    /// A new canvas holding the `width` by `height` part of this one whose
    /// top-left corner is `(x, y)`, cut at this canvas's edge.
    pub fn get_subimage(&self, x: u32, y: u32, width: u32, height: u32) -> (c: Canvas)
        requires
            self.wf(),
            x <= self@.width,
            y <= self@.height,
        ensures
            c.wf(),
            c@ == subimage_view(self@, x as int, y as int, width as int, height as int),
    {
        let ghost v = self@;
        let dims = self.dimensions();
        let cw = if width < dims.width - x { width } else { dims.width - x };
        let ch = if height < dims.height - y { height } else { dims.height - y };
        proof {
            lemma_product_le(at_least_one(cw as int) as int, at_least_one(ch as int) as int, v.width as int, v.height as int);
        }
        let mut c = Canvas::new(cw, ch);
        proof {
            assert forall|a: int, b: int| c@.in_bounds(a, b) implies #[trigger] c@.at(a, b) == white() by {
                crate::canvas::lemma_index_in_range(c@.width as int, c@.height as int, a, b);
            }
        }
        let mut j: u32 = 0;
        while j < ch
            invariant
                self.wf(),
                c.wf(),
                v == self@,
                dims.width == v.width,
                dims.height == v.height,
                cw as int == (if width < v.width - x { width as int } else { v.width - x }),
                ch as int == (if height < v.height - y { height as int } else { v.height - y }),
                c@.width == at_least_one(cw as int),
                c@.height == at_least_one(ch as int),
                j <= ch,
                forall|a: int, b: int|
                    c@.in_bounds(a, b) ==> #[trigger] c@.at(a, b) == if a < cw && b < j {
                        v.at(x + a, y + b)
                    } else {
                        white()
                    },
            decreases ch - j,
        {
            let mut i: u32 = 0;
            while i < cw
                invariant
                    self.wf(),
                    c.wf(),
                    v == self@,
                    dims.width == v.width,
                    dims.height == v.height,
                    cw as int == (if width < v.width - x { width as int } else { v.width - x }),
                    ch as int == (if height < v.height - y { height as int } else { v.height - y }),
                    c@.width == at_least_one(cw as int),
                    c@.height == at_least_one(ch as int),
                    j < ch,
                    i <= cw,
                    forall|a: int, b: int|
                        c@.in_bounds(a, b) ==> #[trigger] c@.at(a, b) == if a < cw && b < j || (b == j && a < i) {
                            v.at(x + a, y + b)
                        } else {
                            white()
                        },
                decreases cw - i,
            {
                let p = self.get_pixel(x + i, y + j);
                let ghost before = c@;
                c.set_pixel_mut(i, j, &p);
                proof {
                    assert forall|a: int, b: int| c@.in_bounds(a, b) implies #[trigger] c@.at(a, b) == if a < cw && b
                        < j || (b == j && a < i + 1) {
                        v.at(x + a, y + b)
                    } else {
                        white()
                    } by {
                        lemma_with_pixel_at(before, i as int, j as int, p, a, b);
                        assert(before.at(a, b) == if a < cw && b < j || (b == j && a < i) {
                            v.at(x + a, y + b)
                        } else {
                            white()
                        });
                    }
                }
                i += 1;
            }
            j += 1;
        }
        proof {
            let f = |i: int, j: int| if i < cw && j < ch { v.at(x + i, y + j) } else { white() };
            assert forall|a: int, b: int| c@.in_bounds(a, b) implies #[trigger] c@.at(a, b) == subimage_view(
                v,
                x as int,
                y as int,
                width as int,
                height as int,
            ).at(a, b) by {
                lemma_view_from_fn_at(c@.width, c@.height, f, a, b);
            }
            lemma_view_ext(c@, subimage_view(v, x as int, y as int, width as int, height as int));
        }
        c
    }

    /// Makes this canvas `x` by `y` pixels (a zero size becomes 1), keeping
    /// what fits anchored at the top-left corner and filling the rest with
    /// white.
    pub fn resize_mut(&mut self, x: u32, y: u32)
        requires
            old(self).wf(),
            at_least_one(x as int) * at_least_one(y as int) <= u32::MAX,
        ensures
            final(self).wf(),
            final(self)@ == resized_view(old(self)@, x as int, y as int),
    {
        let copy = self.duplicate();
        let blank = Canvas::new(x, y);
        proof {
            let bv = blank_view(at_least_one(x as int), at_least_one(y as int));
            assert forall|a: int, b: int| blank@.in_bounds(a, b) implies #[trigger] blank@.at(a, b) == bv.at(a, b) by {
                lemma_view_from_fn_at(bv.width, bv.height, |a: int, b: int| white(), a, b);
                crate::canvas::lemma_index_in_range(blank@.width as int, blank@.height as int, a, b);
            }
            lemma_view_ext(blank@, bv);
        }
        *self = blank;
        self.place(0, 0, &copy, false);
    }

    /// Returns this canvas made `x` by `y` pixels (a zero size becomes 1),
    /// keeping what fits anchored at the top-left corner and filling the rest
    /// with white.
    pub fn resize(self, x: u32, y: u32) -> (c: Canvas)
        requires
            self.wf(),
            at_least_one(x as int) * at_least_one(y as int) <= u32::MAX,
        ensures
            c.wf(),
            c@ == resized_view(self@, x as int, y as int),
    {
        let mut c = self;
        c.resize_mut(x, y);
        c
    }
}


/// A canvas of `w` by `h` pixels, all of colour `color`.
pub open spec fn solid_view(w: nat, h: nat, color: Pixel) -> CanvasView {
    view_from_fn(w, h, |a: int, b: int| color)
}

impl Canvas {
    /// Composites a `w` by `h` rectangle of `color` (a zero size becomes 1)
    /// with its top-left corner at `(x, y)`.
    pub fn draw_square_mut(&mut self, x: u32, y: u32, w: u32, h: u32, color: &Pixel)
        requires
            old(self).wf(),
            at_least_one(w as int) * at_least_one(h as int) <= u32::MAX,
        ensures
            final(self).wf(),
            final(self)@ == placed_view(
                old(self)@,
                x as int,
                y as int,
                solid_view(at_least_one(w as int), at_least_one(h as int), *color),
                true,
            ),
    {
        let canvas = Canvas::new_with_background(w, h, *color);
        proof {
            let sv = solid_view(at_least_one(w as int), at_least_one(h as int), *color);
            assert forall|a: int, b: int| canvas@.in_bounds(a, b) implies #[trigger] canvas@.at(a, b) == sv.at(a, b) by {
                lemma_view_from_fn_at(sv.width, sv.height, |a: int, b: int| *color, a, b);
                crate::canvas::lemma_index_in_range(canvas@.width as int, canvas@.height as int, a, b);
            }
            lemma_view_ext(canvas@, sv);
        }
        self.draw_subimage_mut(x, y, &canvas);
    }

    /// Returns this canvas with a `w` by `h` rectangle of `color` composited
    /// at `(x, y)`.
    pub fn draw_square(self, x: u32, y: u32, w: u32, h: u32, color: &Pixel) -> (c: Canvas)
        requires
            self.wf(),
            at_least_one(w as int) * at_least_one(h as int) <= u32::MAX,
        ensures
            c.wf(),
            c@ == placed_view(
                self@,
                x as int,
                y as int,
                solid_view(at_least_one(w as int), at_least_one(h as int), *color),
                true,
            ),
    {
        let mut c = self;
        c.draw_square_mut(x, y, w, h, color);
        c
    }

    /// Cuts the canvas into bands of `size_of_chunk` rows, top to bottom;
    /// the last band holds what is left.
    pub fn vertical_chunks(&self, size_of_chunk: u32) -> (chunks: Vec<Canvas>)
        requires
            self.wf(),
            size_of_chunk >= 1,
        ensures
            chunks@.len() * size_of_chunk >= self@.height,
            (chunks@.len() - 1) * size_of_chunk < self@.height,
            forall|k: int|
                0 <= k < chunks@.len() ==> (#[trigger] chunks@[k]).wf() && chunks@[k]@ == subimage_view(
                    self@,
                    0,
                    k * size_of_chunk,
                    self@.width as int,
                    size_of_chunk as int,
                ),
    {
        let ghost v = self@;
        let dims = self.dimensions();
        let mut chunks: Vec<Canvas> = Vec::new();
        let mut y: u32 = 0;
        assert(0 * size_of_chunk == 0);
        while y < dims.height
            invariant
                self.wf(),
                v == self@,
                dims.width == v.width,
                dims.height == v.height,
                size_of_chunk >= 1,
                y <= v.height,
                y < v.height ==> y == chunks@.len() * size_of_chunk,
                y == v.height ==> chunks@.len() * size_of_chunk >= v.height,
                chunks@.len() == 0 || (chunks@.len() - 1) * size_of_chunk < v.height,
                forall|k: int|
                    0 <= k < chunks@.len() ==> (#[trigger] chunks@[k]).wf() && chunks@[k]@ == subimage_view(
                        v,
                        0,
                        k * size_of_chunk,
                        v.width as int,
                        size_of_chunk as int,
                    ),
            decreases v.height - y,
        {
            let c = self.get_subimage(0, y, dims.width, size_of_chunk);
            let ghost len = chunks@.len();
            chunks.push(c);
            proof {
                assert((len + 1) * size_of_chunk == len * size_of_chunk + size_of_chunk) by (nonlinear_arith);
                assert(chunks@[len as int] == c);
            }
            if dims.height - y <= size_of_chunk {
                y = dims.height;
            } else {
                y = y + size_of_chunk;
            }
        }
        chunks
    }

    /// Cuts the canvas into bands of `size_of_chunk` columns, left to right;
    /// the last band holds what is left.
    pub fn horizontal_chunks(&self, size_of_chunk: u32) -> (chunks: Vec<Canvas>)
        requires
            self.wf(),
            size_of_chunk >= 1,
        ensures
            chunks@.len() * size_of_chunk >= self@.width,
            (chunks@.len() - 1) * size_of_chunk < self@.width,
            forall|k: int|
                0 <= k < chunks@.len() ==> (#[trigger] chunks@[k]).wf() && chunks@[k]@ == subimage_view(
                    self@,
                    k * size_of_chunk,
                    0,
                    size_of_chunk as int,
                    self@.height as int,
                ),
    {
        let ghost v = self@;
        let dims = self.dimensions();
        let mut chunks: Vec<Canvas> = Vec::new();
        let mut x: u32 = 0;
        assert(0 * size_of_chunk == 0);
        while x < dims.width
            invariant
                self.wf(),
                v == self@,
                dims.width == v.width,
                dims.height == v.height,
                size_of_chunk >= 1,
                x <= v.width,
                x < v.width ==> x == chunks@.len() * size_of_chunk,
                x == v.width ==> chunks@.len() * size_of_chunk >= v.width,
                chunks@.len() == 0 || (chunks@.len() - 1) * size_of_chunk < v.width,
                forall|k: int|
                    0 <= k < chunks@.len() ==> (#[trigger] chunks@[k]).wf() && chunks@[k]@ == subimage_view(
                        v,
                        k * size_of_chunk,
                        0,
                        size_of_chunk as int,
                        v.height as int,
                    ),
            decreases v.width - x,
        {
            let c = self.get_subimage(x, 0, size_of_chunk, dims.height);
            let ghost len = chunks@.len();
            chunks.push(c);
            proof {
                assert((len + 1) * size_of_chunk == len * size_of_chunk + size_of_chunk) by (nonlinear_arith);
                assert(chunks@[len as int] == c);
            }
            if dims.width - x <= size_of_chunk {
                x = dims.width;
            } else {
                x = x + size_of_chunk;
            }
        }
        chunks
    }
}


/// Whether `(a, b)` lies in the rectangle `x0..=x1` by `y0..=y1`.
pub open spec fn in_rect(a: int, b: int, x0: int, x1: int, y0: int, y1: int) -> bool {
    x0 <= a <= x1 && y0 <= b <= y1
}

/// Whether `(a, b)` lies in the box that reaches `left`, `right`, `up` and
/// `down` positions around one of `pts`.
pub open spec fn in_boxes(pts: Seq<Point>, a: int, b: int, left: int, right: int, up: int, down: int) -> bool {
    exists|k: int|
        0 <= k < pts.len() && #[trigger] in_rect(
            a,
            b,
            pts[k].x - left,
            pts[k].x + right,
            pts[k].y - up,
            pts[k].y + down,
        )
}

/// `v` with `color` painted over the boxes around every position of `pts`.
pub open spec fn traced_view(
    v: CanvasView,
    pts: Seq<Point>,
    color: Pixel,
    left: int,
    right: int,
    up: int,
    down: int,
) -> CanvasView {
    view_from_fn(
        v.width,
        v.height,
        |a: int, b: int| if in_boxes(pts, a, b, left, right, up, down) { color } else { v.at(a, b) },
    )
}

impl Canvas {
    /// Paints `color` over the part of the rectangle `x0..=x1` by `y0..=y1`
    /// that lies inside the canvas.
    fn paint_rect(&mut self, x0: i64, x1: i64, y0: i64, y1: i64, color: &Pixel)
        requires
            old(self).wf(),
            -0x1_0000_0000 <= x0 <= x1 <= 0x2_0000_0000,
            -0x1_0000_0000 <= y0 <= y1 <= 0x2_0000_0000,
        ensures
            final(self).wf(),
            final(self)@.width == old(self)@.width,
            final(self)@.height == old(self)@.height,
            forall|a: int, b: int|
                old(self)@.in_bounds(a, b) ==> #[trigger] final(self)@.at(a, b) == if in_rect(
                    a,
                    b,
                    x0 as int,
                    x1 as int,
                    y0 as int,
                    y1 as int,
                ) {
                    *color
                } else {
                    old(self)@.at(a, b)
                },
    {
        let ghost v = self@;
        let mut xx: i64 = x0;
        while xx <= x1
            invariant
                self.wf(),
                v.wf(),
                self@.width == v.width,
                self@.height == v.height,
                x0 <= xx <= x1 + 1,
                x1 <= 0x2_0000_0000,
                -0x1_0000_0000 <= y0 <= y1 <= 0x2_0000_0000,
                forall|a: int, b: int|
                    v.in_bounds(a, b) ==> #[trigger] self@.at(a, b) == if in_rect(a, b, x0 as int, xx - 1, y0 as int, y1 as int) {
                        *color
                    } else {
                        v.at(a, b)
                    },
            decreases x1 + 1 - xx,
        {
            let mut yy: i64 = y0;
            while yy <= y1
                invariant
                    self.wf(),
                    v.wf(),
                    self@.width == v.width,
                    self@.height == v.height,
                    x0 <= xx <= x1,
                    x1 <= 0x2_0000_0000,
                    y0 <= yy <= y1 + 1,
                    y1 <= 0x2_0000_0000,
                    forall|a: int, b: int|
                        v.in_bounds(a, b) ==> #[trigger] self@.at(a, b) == if in_rect(a, b, x0 as int, xx - 1, y0 as int, y1 as int)
                            || (a == xx && y0 <= b < yy) {
                            *color
                        } else {
                            v.at(a, b)
                        },
                decreases y1 + 1 - yy,
            {
                let ghost before = self@;
                self.set_pixel_mut_signed(xx, yy, color);
                proof {
                    assert forall|a: int, b: int| v.in_bounds(a, b) implies #[trigger] self@.at(a, b) == if in_rect(
                        a,
                        b,
                        x0 as int,
                        xx - 1,
                        y0 as int,
                        y1 as int,
                    ) || (a == xx && y0 <= b < yy + 1) {
                        *color
                    } else {
                        v.at(a, b)
                    } by {
                        assert(before.at(a, b) == if in_rect(a, b, x0 as int, xx - 1, y0 as int, y1 as int) || (a == xx
                            && y0 <= b < yy) {
                            *color
                        } else {
                            v.at(a, b)
                        });
                        if v.in_bounds(xx as int, yy as int) {
                            lemma_with_pixel_at(before, xx as int, yy as int, *color, a, b);
                        }
                    }
                }
                yy += 1;
            }
            xx += 1;
        }
    }

    /// Paints `color` over the box reaching `left`, `right`, `up` and `down`
    /// positions around every position of `island`, where it lies inside the
    /// canvas.
    pub fn trace_mut(&mut self, island: &Island, color: &Pixel, left: u32, right: u32, up: u32, down: u32)
        requires
            old(self).wf(),
        ensures
            final(self).wf(),
            final(self)@ == traced_view(
                old(self)@,
                island.points@,
                *color,
                left as int,
                right as int,
                up as int,
                down as int,
            ),
    {
        let ghost v = self@;
        let pts = &island.points;
        let left: i64 = left as i64;
        let right: i64 = right as i64;
        let up: i64 = up as i64;
        let down: i64 = down as i64;
        let mut k: usize = 0;
        while k < pts.len()
            invariant
                self.wf(),
                v.wf(),
                self@.width == v.width,
                self@.height == v.height,
                k <= pts@.len(),
                0 <= left <= u32::MAX,
                0 <= right <= u32::MAX,
                0 <= up <= u32::MAX,
                0 <= down <= u32::MAX,
                forall|a: int, b: int|
                    v.in_bounds(a, b) ==> #[trigger] self@.at(a, b) == if in_boxes(
                        pts@.subrange(0, k as int),
                        a,
                        b,
                        left as int,
                        right as int,
                        up as int,
                        down as int,
                    ) {
                        *color
                    } else {
                        v.at(a, b)
                    },
            decreases pts@.len() - k,
        {
            let p = pts[k];
            let ghost before = self@;
            self.paint_rect(p.x as i64 - left, p.x as i64 + right, p.y as i64 - up, p.y as i64 + down, color);
            proof {
                let sub = pts@.subrange(0, k as int);
                let sub2 = pts@.subrange(0, k + 1);
                assert forall|a: int, b: int| v.in_bounds(a, b) implies #[trigger] self@.at(a, b) == if in_boxes(
                    sub2,
                    a,
                    b,
                    left as int,
                    right as int,
                    up as int,
                    down as int,
                ) {
                    *color
                } else {
                    v.at(a, b)
                } by {
                    assert(before.at(a, b) == if in_boxes(sub, a, b, left as int, right as int, up as int, down as int) {
                        *color
                    } else {
                        v.at(a, b)
                    });
                    if in_boxes(sub, a, b, left as int, right as int, up as int, down as int) {
                        let j = choose|j: int|
                            0 <= j < sub.len() && #[trigger] in_rect(
                                a,
                                b,
                                sub[j].x - left,
                                sub[j].x + right,
                                sub[j].y - up,
                                sub[j].y + down,
                            );
                        assert(sub2[j] == sub[j]);
                    }
                    if in_rect(a, b, p.x - left, p.x + right, p.y - up, p.y + down) {
                        assert(sub2[k as int] == p);
                    }
                    if in_boxes(sub2, a, b, left as int, right as int, up as int, down as int) && !in_rect(
                        a,
                        b,
                        p.x - left,
                        p.x + right,
                        p.y - up,
                        p.y + down,
                    ) {
                        let j = choose|j: int|
                            0 <= j < sub2.len() && #[trigger] in_rect(
                                a,
                                b,
                                sub2[j].x - left,
                                sub2[j].x + right,
                                sub2[j].y - up,
                                sub2[j].y + down,
                            );
                        assert(j < k);
                        assert(sub[j] == sub2[j]);
                    }
                }
            }
            k += 1;
        }
        proof {
            let t = traced_view(v, pts@, *color, left as int, right as int, up as int, down as int);
            assert(pts@.subrange(0, pts@.len() as int) =~= pts@);
            assert forall|a: int, b: int| v.in_bounds(a, b) implies #[trigger] self@.at(a, b) == t.at(a, b) by {
                lemma_view_from_fn_at(
                    v.width,
                    v.height,
                    |a: int, b: int|
                        if in_boxes(pts@, a, b, left as int, right as int, up as int, down as int) {
                            *color
                        } else {
                            v.at(a, b)
                        },
                    a,
                    b,
                );
            }
            lemma_view_ext(self@, t);
        }
    }

    /// Returns this canvas with `color` painted over the boxes around every
    /// position of `island`.
    pub fn trace(self, island: &Island, color: &Pixel, left: u32, right: u32, up: u32, down: u32) -> (c: Canvas)
        requires
            self.wf(),
        ensures
            c.wf(),
            c@ == traced_view(self@, island.points@, *color, left as int, right as int, up as int, down as int),
    {
        let mut c = self;
        c.trace_mut(island, color, left, right, up, down);
        c
    }
}

} // verus!
