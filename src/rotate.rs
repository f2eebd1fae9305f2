use vstd::prelude::*;
use crate::canvas::{Canvas, CanvasView, lemma_view_ext, lemma_view_from_fn_at, lemma_with_pixel_at,
    view_from_fn};
use crate::compose::{at_least_one, blank_view, placed_view, resized_view, subimage_view};
use crate::pixels::white;

verus! {

/// `v` turned a quarter turn clockwise: the result is `v.height` wide and
/// `v.width` high, and its pixel at `(x, y)` is `v`'s at
/// `(y, v.height - 1 - x)`.
pub open spec fn rotated_view(v: CanvasView) -> CanvasView {
    view_from_fn(v.height, v.width, |x: int, y: int| v.at(y, v.height - 1 - x))
}

/// In a square of side `s`, the corner of the 4-cycle of positions that a
/// quarter turn moves `(a, b)` along; the centre of an odd square, which
/// stays in place, gets `(s / 2, 0)`.
pub open spec fn orbit_rep(s: int, a: int, b: int) -> (int, int) {
    let m = s - 1;
    if a < s / 2 && b < (s + 1) / 2 {
        (a, b)
    } else if a < (s + 1) / 2 && b >= (s + 1) / 2 {
        (m - b, a)
    } else if a >= (s + 1) / 2 && b >= s / 2 {
        (m - a, m - b)
    } else if a >= s / 2 && b < s / 2 {
        (b, m - a)
    } else {
        (s / 2, 0)
    }
}

proof fn lemma_orbit(s: int, gx: int, gy: int, a: int, b: int)
    requires
        s >= 1,
        0 <= gx < s / 2,
        0 <= gy < (s + 1) / 2,
        0 <= a < s,
        0 <= b < s,
    ensures
        orbit_rep(s, gx, gy) == (gx, gy),
        orbit_rep(s, gy, s - 1 - gx) == (gx, gy),
        orbit_rep(s, s - 1 - gx, s - 1 - gy) == (gx, gy),
        orbit_rep(s, s - 1 - gy, gx) == (gx, gy),
        0 <= s - 1 - gx < s,
        0 <= s - 1 - gy < s,
        orbit_rep(s, a, b) == (gx, gy) ==> (a, b) == (gx, gy) || (a, b) == (gy, s - 1 - gx) || (a, b) == (s - 1
            - gx, s - 1 - gy) || (a, b) == (s - 1 - gy, gx),
        (gx, gy) != (gy, s - 1 - gx),
        (gx, gy) != (s - 1 - gx, s - 1 - gy),
        (gx, gy) != (s - 1 - gy, gx),
        (gy, s - 1 - gx) != (s - 1 - gx, s - 1 - gy),
        (gy, s - 1 - gx) != (s - 1 - gy, gx),
        (s - 1 - gx, s - 1 - gy) != (s - 1 - gy, gx),
{
}

proof fn lemma_orbit_rep_range(s: int, a: int, b: int)
    requires
        s >= 1,
        0 <= a < s,
        0 <= b < s,
    ensures
        orbit_rep(s, a, b).0 < s / 2 || (a == s / 2 && b == s / 2 && s % 2 == 1 && orbit_rep(s, a, b).0
            == s / 2),
        orbit_rep(s, a, b).0 <= s / 2,
{
}

impl Canvas {
    /// Turns a square canvas a quarter turn clockwise in place, moving the
    /// pixels of each 4-cycle of positions in one step, ring by ring.
    fn rotate_square_mut(&mut self)
        requires
            old(self).wf(),
            old(self)@.width == old(self)@.height,
        ensures
            final(self).wf(),
            final(self)@ == rotated_view(old(self)@),
    {
        let ghost v = self@;
        let s = self.dimensions().width;
        let m = s - 1;
        let hy: u32 = s - s / 2;
        let mut gx: u32 = 0;
        while gx < s / 2
            invariant
                self.wf(),
                v.wf(),
                s == v.width,
                s == v.height,
                m == s - 1,
                hy == (s + 1) / 2,
                self@.width == s,
                self@.height == s,
                gx <= s / 2,
                forall|a: int, b: int|
                    v.in_bounds(a, b) ==> #[trigger] self@.at(a, b) == if orbit_rep(s as int, a, b).0 < gx {
                        v.at(b, m - a)
                    } else {
                        v.at(a, b)
                    },
            decreases s / 2 - gx,
        {
            let mut gy: u32 = 0;
            while gy < hy
                invariant
                    hy == (s + 1) / 2,
                    self.wf(),
                    v.wf(),
                    s == v.width,
                    s == v.height,
                    m == s - 1,
                    self@.width == s,
                    self@.height == s,
                    gx < s / 2,
                    gy <= (s + 1) / 2,
                    forall|a: int, b: int|
                        v.in_bounds(a, b) ==> #[trigger] self@.at(a, b) == if orbit_rep(s as int, a, b).0 < gx || (
                        orbit_rep(s as int, a, b).0 == gx && orbit_rep(s as int, a, b).1 < gy) {
                            v.at(b, m - a)
                        } else {
                            v.at(a, b)
                        },
                decreases hy - gy,
            {
                let ghost c0 = self@;
                proof {
                    lemma_orbit(s as int, gx as int, gy as int, 0, 0);
                }
                let t = self.get_pixel(gx, gy);
                let p1 = self.get_pixel(gy, m - gx);
                self.set_pixel_mut(gx, gy, &p1);
                let ghost c1 = self@;
                let p2 = self.get_pixel(m - gx, m - gy);
                proof {
                    lemma_with_pixel_at(c0, gx as int, gy as int, p1, (m - gx) as int, (m - gy) as int);
                }
                self.set_pixel_mut(gy, m - gx, &p2);
                let ghost c2 = self@;
                let p3 = self.get_pixel(m - gy, gx);
                proof {
                    lemma_with_pixel_at(c0, gx as int, gy as int, p1, (m - gy) as int, gx as int);
                    lemma_with_pixel_at(c1, gy as int, (m - gx) as int, p2, (m - gy) as int, gx as int);
                }
                self.set_pixel_mut(m - gx, m - gy, &p3);
                let ghost c3 = self@;
                self.set_pixel_mut(m - gy, gx, &t);
                proof {
                    assert(p1 == v.at(gy as int, m - gx));
                    assert(p2 == v.at((m - gx) as int, (m - gy) as int));
                    assert(p3 == v.at((m - gy) as int, gx as int));
                    assert(t == v.at(gx as int, gy as int));
                    assert forall|a: int, b: int| v.in_bounds(a, b) implies #[trigger] self@.at(a, b) == if orbit_rep(
                        s as int,
                        a,
                        b,
                    ).0 < gx || (orbit_rep(s as int, a, b).0 == gx && orbit_rep(s as int, a, b).1 < gy + 1) {
                        v.at(b, m - a)
                    } else {
                        v.at(a, b)
                    } by {
                        lemma_orbit(s as int, gx as int, gy as int, a, b);
                        lemma_with_pixel_at(c0, gx as int, gy as int, p1, a, b);
                        lemma_with_pixel_at(c1, gy as int, (m - gx) as int, p2, a, b);
                        lemma_with_pixel_at(c2, (m - gx) as int, (m - gy) as int, p3, a, b);
                        lemma_with_pixel_at(c3, (m - gy) as int, gx as int, t, a, b);
                        assert(c0.at(a, b) == if orbit_rep(s as int, a, b).0 < gx || (orbit_rep(s as int, a, b).0
                            == gx && orbit_rep(s as int, a, b).1 < gy) {
                            v.at(b, m - a)
                        } else {
                            v.at(a, b)
                        });
                    }
                }
                gy += 1;
            }
            gx += 1;
        }
        proof {
            let f = |x: int, y: int| v.at(y, v.height - 1 - x);
            assert forall|a: int, b: int| v.in_bounds(a, b) implies #[trigger] self@.at(a, b) == rotated_view(v).at(
                a,
                b,
            ) by {
                lemma_view_from_fn_at(v.height, v.width, f, a, b);
                lemma_orbit_rep_range(s as int, a, b);
            }
            lemma_rotated_wf(v);
            lemma_view_ext(self@, rotated_view(v));
        }
    }
}

/// A quarter turn of a well-formed canvas is well-formed.
pub proof fn lemma_rotated_wf(v: CanvasView)
    requires
        v.wf(),
    ensures
        rotated_view(v).wf(),
        rotated_view(v).width == v.height,
        rotated_view(v).height == v.width,
{
    assert(v.height * v.width == v.width * v.height) by (nonlinear_arith);
}


/// The side of the square that a canvas of `v`'s size is padded to while it
/// turns.
pub open spec fn square_side(v: CanvasView) -> int {
    if v.width >= v.height { v.width as int } else { v.height as int }
}

/// Four quarter turns bring every canvas back to itself, pixel for pixel.
pub proof fn lemma_rotate_four_times(v: CanvasView)
    requires
        v.wf(),
    ensures
        rotated_view(rotated_view(rotated_view(rotated_view(v)))) == v,
{
    let r1 = rotated_view(v);
    let r2 = rotated_view(r1);
    let r3 = rotated_view(r2);
    let r4 = rotated_view(r3);
    lemma_rotated_wf(v);
    lemma_rotated_wf(r1);
    lemma_rotated_wf(r2);
    lemma_rotated_wf(r3);
    assert forall|x: int, y: int| r4.in_bounds(x, y) implies #[trigger] r4.at(x, y) == v.at(x, y) by {
        lemma_view_from_fn_at(r3.height, r3.width, |a: int, b: int| r3.at(b, r3.height - 1 - a), x, y);
        lemma_view_from_fn_at(r2.height, r2.width, |a: int, b: int| r2.at(b, r2.height - 1 - a), y, r3.height - 1 - x);
        lemma_view_from_fn_at(
            r1.height,
            r1.width,
            |a: int, b: int| r1.at(b, r1.height - 1 - a),
            r3.height - 1 - x,
            r2.height - 1 - y,
        );
        lemma_view_from_fn_at(
            v.height,
            v.width,
            |a: int, b: int| v.at(b, v.height - 1 - a),
            r2.height - 1 - y,
            r1.height - 1 - (r3.height - 1 - x),
        );
    }
    lemma_view_ext(r4, v);
}

impl Canvas {
    /// Turns the canvas a quarter turn clockwise. A canvas that is not
    /// square is padded with white to a square, turned in place, and cut
    /// back to its turned size.
    pub fn rotate90_mut(&mut self)
        requires
            old(self).wf(),
            square_side(old(self)@) * square_side(old(self)@) <= u32::MAX,
        ensures
            final(self).wf(),
            final(self)@ == rotated_view(old(self)@),
    {
        let ghost v = self@;
        let prev = self.dimensions();
        let side = if prev.width >= prev.height { prev.width } else { prev.height };
        if prev.width != prev.height {
            self.resize_mut(side, side);
        }
        let ghost padded = self@;
        proof {
            assert forall|a: int, b: int| padded.in_bounds(a, b) implies #[trigger] padded.at(a, b) == if a < v.width
                && b < v.height {
                v.at(a, b)
            } else {
                white()
            } by {
                if prev.width != prev.height {
                    let bv = blank_view(at_least_one(side as int), at_least_one(side as int));
                    lemma_view_from_fn_at(bv.width, bv.height, |a: int, b: int| white(), a, b);
                    lemma_view_from_fn_at(
                        bv.width,
                        bv.height,
                        |a: int, b: int|
                            if 0 <= a < 0 + v.width && 0 <= b < 0 + v.height {
                                crate::compose::combine_spec(bv.at(a, b), v.at(a - 0, b - 0), false)
                            } else {
                                bv.at(a, b)
                            },
                        a,
                        b,
                    );
                }
            }
        }
        self.rotate_square_mut();
        let ghost turned = self@;
        let ghost target = rotated_view(v);
        proof {
            lemma_rotated_wf(v);
            lemma_rotated_wf(padded);
        }
        if prev.width > prev.height {
            let c = self.get_subimage(side - prev.height, 0, prev.height, prev.width);
            *self = c;
        } else if prev.height > prev.width {
            let c = self.get_subimage(0, 0, prev.height, prev.width);
            *self = c;
        }
        proof {
            let rf = |x: int, y: int| padded.at(y, padded.height - 1 - x);
            let tf = |x: int, y: int| v.at(y, v.height - 1 - x);
            assert forall|x: int, y: int| target.in_bounds(x, y) implies #[trigger] self@.at(x, y) == target.at(
                x,
                y,
            ) by {
                lemma_view_from_fn_at(v.height, v.width, tf, x, y);
                if prev.width > prev.height {
                    let ox = side - prev.height;
                    let cw = prev.height as int;
                    let ch = prev.width as int;
                    lemma_view_from_fn_at(
                        at_least_one(cw),
                        at_least_one(ch),
                        |i: int, j: int| if i < cw && j < ch { turned.at(ox + i, 0 + j) } else { white() },
                        x,
                        y,
                    );
                    lemma_view_from_fn_at(padded.height, padded.width, rf, ox + x, y);
                } else if prev.height > prev.width {
                    let cw = prev.height as int;
                    let ch = prev.width as int;
                    lemma_view_from_fn_at(
                        at_least_one(cw),
                        at_least_one(ch),
                        |i: int, j: int| if i < cw && j < ch { turned.at(0 + i, 0 + j) } else { white() },
                        x,
                        y,
                    );
                    lemma_view_from_fn_at(padded.height, padded.width, rf, x, y);
                } else {
                    lemma_view_from_fn_at(padded.height, padded.width, rf, x, y);
                }
            }
            lemma_view_ext(self@, target);
        }
    }

    /// Turns the canvas half a turn.
    pub fn rotate180_mut(&mut self)
        requires
            old(self).wf(),
            square_side(old(self)@) * square_side(old(self)@) <= u32::MAX,
        ensures
            final(self).wf(),
            final(self)@ == rotated_view(rotated_view(old(self)@)),
    {
        self.rotate90_mut();
        self.rotate90_mut();
    }

    /// Turns the canvas three quarter turns clockwise.
    pub fn rotate270_mut(&mut self)
        requires
            old(self).wf(),
            square_side(old(self)@) * square_side(old(self)@) <= u32::MAX,
        ensures
            final(self).wf(),
            final(self)@ == rotated_view(rotated_view(rotated_view(old(self)@))),
    {
        self.rotate180_mut();
        self.rotate90_mut();
    }

    /// Returns this canvas turned a quarter turn clockwise.
    pub fn rotate90(self) -> (c: Canvas)
        requires
            self.wf(),
            square_side(self@) * square_side(self@) <= u32::MAX,
        ensures
            c.wf(),
            c@ == rotated_view(self@),
    {
        let mut c = self;
        c.rotate90_mut();
        c
    }

    /// Returns this canvas turned half a turn.
    pub fn rotate180(self) -> (c: Canvas)
        requires
            self.wf(),
            square_side(self@) * square_side(self@) <= u32::MAX,
        ensures
            c.wf(),
            c@ == rotated_view(rotated_view(self@)),
    {
        self.rotate90().rotate90()
    }

    /// Returns this canvas turned three quarter turns clockwise.
    pub fn rotate270(self) -> (c: Canvas)
        requires
            self.wf(),
            square_side(self@) * square_side(self@) <= u32::MAX,
        ensures
            c.wf(),
            c@ == rotated_view(rotated_view(rotated_view(self@))),
    {
        self.rotate180().rotate90()
    }
}

} // verus!
