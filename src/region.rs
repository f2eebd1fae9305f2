use vstd::prelude::*;
use crate::canvas::{Canvas, CanvasView, Island, Point, index_of, lemma_index_in_range,
    lemma_index_injective, lemma_position_of_index, lemma_view_ext, lemma_view_from_fn_at,
    view_from_fn};
use crate::pixels::{Pixel, dist_sq, lemma_dist_sq_zero};

verus! {

/// The position of a point as a pair of integers.
pub open spec fn pos(p: Point) -> (int, int) {
    (p.x as int, p.y as int)
}

/// Whether `q` is one of the positions listed in `s`.
pub open spec fn in_points(s: Seq<Point>, q: (int, int)) -> bool {
    exists|k: int| 0 <= k < s.len() && #[trigger] pos(s[k]) == q
}

/// Whether two positions are orthogonal neighbours.
pub open spec fn adjacent(p: (int, int), q: (int, int)) -> bool {
    ||| p.1 == q.1 && (p.0 == q.0 + 1 || q.0 == p.0 + 1)
    ||| p.0 == q.0 && (p.1 == q.1 + 1 || q.1 == p.1 + 1)
}

/// Whether `p` lies inside `v` and its colour is at squared distance below
/// `limit` from `target`.
pub open spec fn near(v: CanvasView, target: Pixel, limit: int, p: (int, int)) -> bool {
    v.in_bounds(p.0, p.1) && dist_sq(v.at(p.0, p.1), target) < limit
}

/// A walk through `v` that starts inside it and moves between neighbours,
/// every step landing on a position near `target`.
pub open spec fn is_walk(v: CanvasView, target: Pixel, limit: int, path: Seq<(int, int)>) -> bool {
    &&& path.len() >= 1
    &&& v.in_bounds(path[0].0, path[0].1)
    &&& forall|k: int|
        1 <= k < path.len() ==> near(v, target, limit, #[trigger] path[k]) && adjacent(
            path[k - 1],
            path[k],
        )
}

/// Whether a flood fill started at `s` reaches `q`: some walk leads from `s`
/// to `q` over positions near `target` (`s` itself need not be).
pub open spec fn reaches(v: CanvasView, target: Pixel, limit: int, s: (int, int), q: (int, int)) -> bool {
    exists|path: Seq<(int, int)>|
        #[trigger] is_walk(v, target, limit, path) && path[0] == s && path.last() == q
}

/// The canvas after painting `color` over every position reached from
/// `(sx, sy)`.
pub open spec fn fill_view(
    v: CanvasView,
    sx: int,
    sy: int,
    color: Pixel,
    target: Pixel,
    limit: int,
) -> CanvasView {
    view_from_fn(
        v.width,
        v.height,
        |x: int, y: int| if reaches(v, target, limit, (sx, sy), (x, y)) { color } else { v.at(x, y) },
    )
}

/// What a flood fill with `color` at `(x, y)` makes of `v`: the
/// 4-connected region of the colour found there painted `color`, or `v`
/// itself when that colour already is `color`.
pub open spec fn fill_result(v: CanvasView, x: int, y: int, color: Pixel) -> CanvasView {
    if color == v.at(x, y) {
        v
    } else {
        fill_view(v, x, y, color, v.at(x, y), 1)
    }
}

/// Number of `true` entries.
pub open spec fn count_true(s: Seq<bool>) -> nat
    decreases s.len(),
{
    if s.len() == 0 {
        0
    } else {
        count_true(s.drop_last()) + if s.last() { 1nat } else { 0nat }
    }
}

/// Number of pixels of colour `c`.
pub open spec fn count_color(s: Seq<Pixel>, c: Pixel) -> nat
    decreases s.len(),
{
    if s.len() == 0 {
        0
    } else {
        count_color(s.drop_last(), c) + if s.last() == c { 1nat } else { 0nat }
    }
}

/// Total number of positions over a list of islands.
pub open spec fn total_points(s: Seq<Island>) -> nat
    decreases s.len(),
{
    if s.len() == 0 {
        0
    } else {
        total_points(s.drop_last()) + s.last().points@.len()
    }
}

proof fn lemma_count_true_bound(s: Seq<bool>)
    ensures
        count_true(s) <= s.len(),
    decreases s.len(),
{
    if s.len() > 0 {
        lemma_count_true_bound(s.drop_last());
    }
}

proof fn lemma_count_true_set(s: Seq<bool>, i: int)
    requires
        0 <= i < s.len(),
        !s[i],
    ensures
        count_true(s.update(i, true)) == count_true(s) + 1,
    decreases s.len(),
{
    let t = s.update(i, true);
    if i == s.len() - 1 {
        assert(t.drop_last() =~= s.drop_last());
    } else {
        assert(t.drop_last() =~= s.drop_last().update(i, true));
        lemma_count_true_set(s.drop_last(), i);
    }
}

proof fn lemma_count_true_color(b: Seq<bool>, s: Seq<Pixel>, c: Pixel)
    requires
        b.len() == s.len(),
        forall|i: int| 0 <= i < b.len() ==> (#[trigger] b[i] <==> s[i] == c),
    ensures
        count_true(b) == count_color(s, c),
    decreases b.len(),
{
    if b.len() > 0 {
        lemma_count_true_color(b.drop_last(), s.drop_last(), c);
    }
}

proof fn lemma_total_points_push(s: Seq<Island>, i: Island)
    ensures
        total_points(s.push(i)) == total_points(s) + i.points@.len(),
{
    assert(s.push(i).drop_last() =~= s);
}

/// A flood fill reaches its own start.
pub proof fn lemma_reaches_start(v: CanvasView, target: Pixel, limit: int, s: (int, int))
    requires
        v.in_bounds(s.0, s.1),
    ensures
        reaches(v, target, limit, s, s),
{
    let path = seq![s];
    assert(is_walk(v, target, limit, path));
}

/// Reaching `p` and stepping to a near neighbour `q` reaches `q`.
pub proof fn lemma_reaches_step(
    v: CanvasView,
    target: Pixel,
    limit: int,
    s: (int, int),
    p: (int, int),
    q: (int, int),
)
    requires
        reaches(v, target, limit, s, p),
        adjacent(p, q),
        near(v, target, limit, q),
    ensures
        reaches(v, target, limit, s, q),
{
    let path = choose|path: Seq<(int, int)>|
        #[trigger] is_walk(v, target, limit, path) && path[0] == s && path.last() == p;
    let path2 = path.push(q);
    assert forall|k: int| 1 <= k < path2.len() implies near(v, target, limit, #[trigger] path2[k])
        && adjacent(path2[k - 1], path2[k]) by {
        if k < path.len() {
            assert(path2[k] == path[k]);
        }
    }
    assert(is_walk(v, target, limit, path2));
}

/// What a flood fill reaches lies inside the canvas.
pub proof fn lemma_reaches_in_bounds(v: CanvasView, target: Pixel, limit: int, s: (int, int), q: (int, int))
    requires
        reaches(v, target, limit, s, q),
    ensures
        v.in_bounds(q.0, q.1),
{
    let path = choose|path: Seq<(int, int)>|
        #[trigger] is_walk(v, target, limit, path) && path[0] == s && path.last() == q;
    if path.len() > 1 {
        assert(near(v, target, limit, path[path.len() - 1]));
    }
}

/// What a flood fill reaches from a near start is itself near.
pub proof fn lemma_reaches_near(v: CanvasView, target: Pixel, limit: int, s: (int, int), q: (int, int))
    requires
        reaches(v, target, limit, s, q),
        near(v, target, limit, s),
    ensures
        near(v, target, limit, q),
{
    let path = choose|path: Seq<(int, int)>|
        #[trigger] is_walk(v, target, limit, path) && path[0] == s && path.last() == q;
    if path.len() > 1 {
        assert(near(v, target, limit, path[path.len() - 1]));
    }
}

proof fn lemma_walk_stays(
    v: CanvasView,
    target: Pixel,
    limit: int,
    path: Seq<(int, int)>,
    inside: spec_fn((int, int)) -> bool,
    k: int,
)
    requires
        is_walk(v, target, limit, path),
        inside(path[0]),
        forall|p: (int, int), q: (int, int)|
            #[trigger] inside(p) && adjacent(p, q) && near(v, target, limit, q) ==> #[trigger] inside(q),
        0 <= k < path.len(),
    ensures
        inside(path[k]),
    decreases k,
{
    if k > 0 {
        lemma_walk_stays(v, target, limit, path, inside, k - 1);
        assert(near(v, target, limit, path[k]) && adjacent(path[k - 1], path[k]));
    }
}

/// A set of positions that holds `s` and is closed under steps to near
/// neighbours holds everything a flood fill from `s` reaches.
pub proof fn lemma_reaches_closed(
    v: CanvasView,
    target: Pixel,
    limit: int,
    s: (int, int),
    q: (int, int),
    inside: spec_fn((int, int)) -> bool,
)
    requires
        reaches(v, target, limit, s, q),
        inside(s),
        forall|p: (int, int), q: (int, int)|
            #[trigger] inside(p) && adjacent(p, q) && near(v, target, limit, q) ==> #[trigger] inside(q),
    ensures
        inside(q),
{
    let path = choose|path: Seq<(int, int)>|
        #[trigger] is_walk(v, target, limit, path) && path[0] == s && path.last() == q;
    lemma_walk_stays(v, target, limit, path, inside, path.len() - 1);
}

proof fn lemma_walk_avoids(
    v: CanvasView,
    target: Pixel,
    limit: int,
    path: Seq<(int, int)>,
    marked: spec_fn((int, int)) -> bool,
    k: int,
)
    requires
        is_walk(v, target, limit, path),
        !marked(path[0]),
        near(v, target, limit, path[0]),
        forall|p: (int, int), q: (int, int)|
            #[trigger] marked(p) && adjacent(p, q) && near(v, target, limit, q) ==> #[trigger] marked(q),
        0 <= k < path.len(),
    ensures
        !marked(path[k]),
    decreases k,
{
    if k > 0 {
        lemma_walk_avoids(v, target, limit, path, marked, k - 1);
        if k - 1 > 0 {
            assert(near(v, target, limit, path[k - 1]));
        }
        assert(adjacent(path[k - 1], path[k]));
        assert(adjacent(path[k], path[k - 1]));
    }
}

/// A closed set of positions that misses a near start misses everything a
/// flood fill from it reaches.
proof fn lemma_reaches_avoids(
    v: CanvasView,
    target: Pixel,
    limit: int,
    s: (int, int),
    q: (int, int),
    marked: spec_fn((int, int)) -> bool,
)
    requires
        reaches(v, target, limit, s, q),
        !marked(s),
        near(v, target, limit, s),
        forall|p: (int, int), q: (int, int)|
            #[trigger] marked(p) && adjacent(p, q) && near(v, target, limit, q) ==> #[trigger] marked(q),
    ensures
        !marked(q),
{
    let path = choose|path: Seq<(int, int)>|
        #[trigger] is_walk(v, target, limit, path) && path[0] == s && path.last() == q;
    lemma_walk_avoids(v, target, limit, path, marked, path.len() - 1);
}

/// The bookkeeping of a traversal from `s`: `points` lists distinct reached
/// positions, starting with `s`, and `vis` is `vis0` with those positions
/// marked.
pub open spec fn explored(
    v: CanvasView,
    target: Pixel,
    limit: int,
    s: (int, int),
    vis0: Seq<bool>,
    vis: Seq<bool>,
    points: Seq<Point>,
) -> bool {
    &&& vis.len() == vis0.len() == v.pixels.len()
    &&& points.len() >= 1
    &&& pos(points[0]) == s
    &&& forall|k: int|
        #![trigger points[k]]
        0 <= k < points.len() ==> v.in_bounds(pos(points[k]).0, pos(points[k]).1) && reaches(
            v,
            target,
            limit,
            s,
            pos(points[k]),
        )
    &&& forall|k1: int, k2: int|
        0 <= k1 < points.len() && 0 <= k2 < points.len() && k1 != k2 ==> #[trigger] points[k1]
            != #[trigger] points[k2]
    &&& forall|x: int, y: int|
        v.in_bounds(x, y) ==> (#[trigger] vis[index_of(v.width as int, x, y)] == (vis0[index_of(
            v.width as int,
            x,
            y,
        )] || in_points(points, (x, y))))
    &&& count_true(vis) == count_true(vis0) + points.len()
}

impl Canvas {
    /// Whether the colour at `(x, y)` is at squared distance below `limit`
    /// from `target`.
    fn is_near(&self, x: u32, y: u32, target: &Pixel, limit: u64) -> (r: bool)
        requires
            self.wf(),
            self@.in_bounds(x as int, y as int),
        ensures
            r == near(self@, *target, limit as int, (x as int, y as int)),
    {
        let p = self.get_pixel(x, y);
        (p.squared_distance(target) as u64) < limit
    }

    /// Records `(nx, ny)`, a neighbour of the reached position `p`, when it is
    /// near and not yet marked.
    fn visit(
        &self,
        visited: &mut Vec<bool>,
        points: &mut Vec<Point>,
        nx: u32,
        ny: u32,
        target: &Pixel,
        limit: u64,
        Ghost(s): Ghost<(int, int)>,
        Ghost(vis0): Ghost<Seq<bool>>,
        Ghost(p): Ghost<(int, int)>,
    )
        requires
            self.wf(),
            explored(self@, *target, limit as int, s, vis0, old(visited)@, old(points)@),
            self@.in_bounds(nx as int, ny as int),
            reaches(self@, *target, limit as int, s, p),
            adjacent(p, (nx as int, ny as int)),
        ensures
            explored(self@, *target, limit as int, s, vis0, final(visited)@, final(points)@),
            final(points)@.len() >= old(points)@.len(),
            forall|k: int| 0 <= k < old(points)@.len() ==> #[trigger] final(points)@[k] == old(points)@[k],
            forall|i: int| 0 <= i < old(visited)@.len() && old(visited)@[i] ==> #[trigger] final(visited)@[i],
            near(self@, *target, limit as int, (nx as int, ny as int)) ==> final(visited)@[index_of(
                self@.width as int,
                nx as int,
                ny as int,
            )],
    {
        let w = self.dimensions().width;
        let h = self.dimensions().height;
        proof {
            lemma_index_in_range(w as int, h as int, nx as int, ny as int);
        }
        let i = (w * ny + nx) as usize;
        if !visited[i] && self.is_near(nx, ny, target, limit) {
            let ghost v = self@;
            let ghost old_vis = visited@;
            let ghost old_pts = points@;
            let q = Point { x: nx, y: ny };
            proof {
                lemma_reaches_step(v, *target, limit as int, s, p, pos(q));
                lemma_count_true_set(old_vis, i as int);
            }
            visited.set(i, true);
            points.push(q);
            proof {
                assert forall|k: int|
                    #![trigger points@[k]]
                    0 <= k < points@.len() implies v.in_bounds(pos(points@[k]).0, pos(points@[k]).1)
                        && reaches(v, *target, limit as int, s, pos(points@[k])) by {
                    if k < old_pts.len() {
                        assert(points@[k] == old_pts[k]);
                    }
                }
                assert forall|k1: int, k2: int|
                    0 <= k1 < points@.len() && 0 <= k2 < points@.len() && k1 != k2 implies #[trigger] points@[k1]
                    != #[trigger] points@[k2] by {
                    if k1 < old_pts.len() && k2 < old_pts.len() {
                        assert(old_pts[k1] != old_pts[k2]);
                    } else if k1 < old_pts.len() {
                        let o = old_pts[k1];
                        assert(v.in_bounds(pos(old_pts[k1]).0, pos(old_pts[k1]).1));
                        lemma_index_in_range(w as int, h as int, o.x as int, o.y as int);
                        assert(old_vis[index_of(w as int, o.x as int, o.y as int)]) by {
                            assert(in_points(old_pts, pos(o)));
                        }
                    } else if k2 < old_pts.len() {
                        let o = old_pts[k2];
                        assert(v.in_bounds(pos(old_pts[k2]).0, pos(old_pts[k2]).1));
                        lemma_index_in_range(w as int, h as int, o.x as int, o.y as int);
                        assert(old_vis[index_of(w as int, o.x as int, o.y as int)]) by {
                            assert(in_points(old_pts, pos(o)));
                        }
                    }
                }
                assert forall|x: int, y: int| v.in_bounds(x, y) implies (
                #[trigger] visited@[index_of(v.width as int, x, y)] == (vis0[index_of(
                    v.width as int,
                    x,
                    y,
                )] || in_points(points@, (x, y)))) by {
                    lemma_index_injective(w as int, x, y, nx as int, ny as int);
                    lemma_index_in_range(w as int, h as int, x, y);
                    if in_points(old_pts, (x, y)) {
                        let k = choose|k: int| 0 <= k < old_pts.len() && #[trigger] pos(old_pts[k]) == (x, y);
                        assert(pos(points@[k]) == (x, y));
                    }
                    if in_points(points@, (x, y)) && (x, y) != (nx as int, ny as int) {
                        let k = choose|k: int| 0 <= k < points@.len() && #[trigger] pos(points@[k]) == (x, y);
                        assert(k < old_pts.len());
                        assert(pos(old_pts[k]) == (x, y));
                    }
                    if (x, y) == (nx as int, ny as int) {
                        assert(pos(points@[old_pts.len() as int]) == (x, y));
                    }
                }
            }
        }
    }

    /// Lists every position that a flood fill from `(sx, sy)` reaches, marking
    /// each in `visited`; the fill's region must be unmarked beforehand.
    fn explore(&self, visited: &mut Vec<bool>, sx: u32, sy: u32, target: &Pixel, limit: u64) -> (points: Vec<Point>)
        requires
            self.wf(),
            old(visited)@.len() == self@.pixels.len(),
            self@.in_bounds(sx as int, sy as int),
            forall|q: (int, int)|
                #[trigger] reaches(self@, *target, limit as int, (sx as int, sy as int), q) ==> !old(visited)@[index_of(
                    self@.width as int,
                    q.0,
                    q.1,
                )],
        ensures
            explored(self@, *target, limit as int, (sx as int, sy as int), old(visited)@, final(visited)@, points@),
            forall|x: int, y: int|
                self@.in_bounds(x, y) ==> (in_points(points@, (x, y)) <==> #[trigger] reaches(
                    self@,
                    *target,
                    limit as int,
                    (sx as int, sy as int),
                    (x, y),
                )),
    {
        let ghost v = self@;
        let ghost s = (sx as int, sy as int);
        let ghost vis0 = visited@;
        let w = self.dimensions().width;
        let h = self.dimensions().height;
        proof {
            lemma_index_in_range(w as int, h as int, sx as int, sy as int);
            lemma_reaches_start(v, *target, limit as int, s);
            lemma_count_true_set(vis0, index_of(w as int, sx as int, sy as int));
        }
        visited.set((w * sy + sx) as usize, true);
        let mut points: Vec<Point> = Vec::new();
        points.push(Point { x: sx, y: sy });
        proof {
            assert forall|x: int, y: int| v.in_bounds(x, y) implies (
            #[trigger] visited@[index_of(v.width as int, x, y)] == (vis0[index_of(v.width as int, x, y)]
                || in_points(points@, (x, y)))) by {
                lemma_index_injective(w as int, x, y, sx as int, sy as int);
                lemma_index_in_range(w as int, h as int, x, y);
                if (x, y) == s {
                    assert(pos(points@[0]) == (x, y));
                }
                if in_points(points@, (x, y)) {
                    let k = choose|k: int| 0 <= k < points@.len() && #[trigger] pos(points@[k]) == (x, y);
                    assert(k == 0);
                }
            }
        }
        let mut head: usize = 0;
        while head < points.len()
            invariant
                self.wf(),
                v == self@,
                w == v.width,
                h == v.height,
                s == (sx as int, sy as int),
                head <= points@.len(),
                explored(v, *target, limit as int, s, vis0, visited@, points@),
                forall|q: (int, int)|
                    #[trigger] reaches(v, *target, limit as int, s, q) ==> !vis0[index_of(v.width as int, q.0, q.1)],
                forall|k: int, q: (int, int)|
                    0 <= k < head && adjacent(#[trigger] pos(points@[k]), q) && near(v, *target, limit as int, q)
                        ==> #[trigger] visited@[index_of(v.width as int, q.0, q.1)],
            decreases 2 * (v.pixels.len() - count_true(visited@)) + points@.len() - head,
        {
            let p = points[head];
            let ghost pp = pos(p);
            let ghost vis_before = visited@;
            let ghost pts_before = points@;
            proof {
                lemma_count_true_bound(visited@);
                assert(v.in_bounds(pos(points@[head as int]).0, pos(points@[head as int]).1));
                assert(reaches(v, *target, limit as int, s, pp));
            }
            if p.x > 0 {
                self.visit(visited, &mut points, p.x - 1, p.y, target, limit, Ghost(s), Ghost(vis0), Ghost(pp));
                assert(forall|k: int| 0 <= k < pts_before.len() ==> #[trigger] points@[k] == pts_before[k]);
                assert(forall|i: int| 0 <= i < vis_before.len() && vis_before[i] ==> #[trigger] visited@[i]);
            }
            if p.x + 1 < w {
                self.visit(visited, &mut points, p.x + 1, p.y, target, limit, Ghost(s), Ghost(vis0), Ghost(pp));
                assert(forall|k: int| 0 <= k < pts_before.len() ==> #[trigger] points@[k] == pts_before[k]);
                assert(forall|i: int| 0 <= i < vis_before.len() && vis_before[i] ==> #[trigger] visited@[i]);
            }
            if p.y > 0 {
                self.visit(visited, &mut points, p.x, p.y - 1, target, limit, Ghost(s), Ghost(vis0), Ghost(pp));
                assert(forall|k: int| 0 <= k < pts_before.len() ==> #[trigger] points@[k] == pts_before[k]);
                assert(forall|i: int| 0 <= i < vis_before.len() && vis_before[i] ==> #[trigger] visited@[i]);
            }
            if p.y + 1 < h {
                self.visit(visited, &mut points, p.x, p.y + 1, target, limit, Ghost(s), Ghost(vis0), Ghost(pp));
                assert(forall|k: int| 0 <= k < pts_before.len() ==> #[trigger] points@[k] == pts_before[k]);
                assert(forall|i: int| 0 <= i < vis_before.len() && vis_before[i] ==> #[trigger] visited@[i]);
            }
            proof {
                assert forall|k: int, q: (int, int)|
                    0 <= k < head + 1 && adjacent(#[trigger] pos(points@[k]), q) && near(v, *target, limit as int, q)
                        implies #[trigger] visited@[index_of(v.width as int, q.0, q.1)] by {
                    assert(points@[k] == pts_before[k]);
                    lemma_index_in_range(w as int, h as int, q.0, q.1);
                    if k < head {
                        assert(vis_before[index_of(v.width as int, q.0, q.1)]);
                    }
                }
                lemma_count_true_bound(visited@);
            }
            head += 1;
        }
        proof {
            let inside = |q: (int, int)| v.in_bounds(q.0, q.1) && in_points(points@, q);
            assert forall|p: (int, int), q: (int, int)|
                #[trigger] inside(p) && adjacent(p, q) && near(v, *target, limit as int, q) implies #[trigger] inside(q) by {
                let k = choose|k: int| 0 <= k < points@.len() && #[trigger] pos(points@[k]) == p;
                lemma_index_in_range(w as int, h as int, q.0, q.1);
                assert(visited@[index_of(v.width as int, q.0, q.1)]);
                lemma_reaches_step(v, *target, limit as int, s, p, q);
            }
            assert(inside(s)) by {
                assert(pos(points@[0]) == s);
            }
            assert forall|x: int, y: int| v.in_bounds(x, y) implies (in_points(points@, (x, y)) <==> #[trigger] reaches(
                v,
                *target,
                limit as int,
                s,
                (x, y),
            )) by {
                if reaches(v, *target, limit as int, s, (x, y)) {
                    lemma_reaches_closed(v, *target, limit as int, s, (x, y), inside);
                }
                if in_points(points@, (x, y)) {
                    let k = choose|k: int| 0 <= k < points@.len() && #[trigger] pos(points@[k]) == (x, y);
                    assert(reaches(v, *target, limit as int, s, pos(points@[k])));
                }
            }
        }
        points
    }
}


/// The canvas after painting `color` over every position listed in `pts`.
pub open spec fn paint_view(v: CanvasView, pts: Seq<Point>, color: Pixel) -> CanvasView {
    view_from_fn(
        v.width,
        v.height,
        |x: int, y: int| if in_points(pts, (x, y)) { color } else { v.at(x, y) },
    )
}

/// `n` unmarked flags.
fn unmarked(n: usize) -> (r: Vec<bool>)
    ensures
        r@.len() == n,
        forall|i: int| 0 <= i < n ==> !#[trigger] r@[i],
        count_true(r@) == 0,
{
    let mut r: Vec<bool> = Vec::with_capacity(n);
    let mut i: usize = 0;
    while i < n
        invariant
            i <= n,
            r@.len() == i,
            forall|k: int| 0 <= k < i ==> !#[trigger] r@[k],
            count_true(r@) == 0,
        decreases n - i,
    {
        let ghost r0 = r@;
        r.push(false);
        assert(r@.drop_last() =~= r0);
        i += 1;
    }
    r
}

impl Canvas {
    /// Paints every position of `island` with `color`.
    pub fn draw_island_mut(&mut self, island: &Island, color: &Pixel)
        requires
            old(self).wf(),
            forall|k: int|
                0 <= k < island.points@.len() ==> old(self)@.in_bounds(
                    #[trigger] island.points@[k].x as int,
                    island.points@[k].y as int,
                ),
        ensures
            final(self).wf(),
            final(self)@ == paint_view(old(self)@, island.points@, *color),
    {
        let ghost v = self@;
        let pts = &island.points;
        let mut k: usize = 0;
        while k < pts.len()
            invariant
                self.wf(),
                self@.width == v.width,
                self@.height == v.height,
                k <= pts@.len(),
                forall|j: int|
                    0 <= j < pts@.len() ==> v.in_bounds(#[trigger] pts@[j].x as int, pts@[j].y as int),
                forall|x: int, y: int|
                    v.in_bounds(x, y) ==> #[trigger] self@.at(x, y) == if in_points(pts@.subrange(0, k as int), (x, y)) {
                        *color
                    } else {
                        v.at(x, y)
                    },
            decreases pts@.len() - k,
        {
            let p = pts[k];
            let ghost before = self@;
            assert(v.in_bounds(pts@[k as int].x as int, pts@[k as int].y as int));
            assert(v.in_bounds(p.x as int, p.y as int));
            self.set_pixel_mut(p.x, p.y, color);
            proof {
                let sub = pts@.subrange(0, k as int);
                let sub2 = pts@.subrange(0, k + 1);
                assert forall|x: int, y: int| v.in_bounds(x, y) implies #[trigger] self@.at(x, y) == if in_points(sub2, (x, y)) {
                    *color
                } else {
                    v.at(x, y)
                } by {
                    lemma_index_injective(v.width as int, x, y, p.x as int, p.y as int);
                    lemma_index_in_range(v.width as int, v.height as int, x, y);
                    assert(before.at(x, y) == if in_points(sub, (x, y)) { *color } else { v.at(x, y) });
                    if (x, y) == pos(p) {
                        assert(self@.at(x, y) == *color);
                    } else {
                        let ix = index_of(v.width as int, x, y);
                        assert(ix != index_of(v.width as int, p.x as int, p.y as int));
                        assert(self@.pixels == before.pixels.update(index_of(v.width as int, p.x as int, p.y as int), *color));
                        lemma_index_in_range(v.width as int, v.height as int, p.x as int, p.y as int);
                        assert(self@.pixels[ix] == before.pixels[ix]);
                        assert(self@.at(x, y) == before.at(x, y));
                    }
                    if in_points(sub, (x, y)) {
                        let j = choose|j: int| 0 <= j < sub.len() && #[trigger] pos(sub[j]) == (x, y);
                        assert(pos(sub2[j]) == (x, y));
                    }
                    if (x, y) == pos(p) {
                        assert(pos(sub2[k as int]) == (x, y));
                    }
                    if in_points(sub2, (x, y)) && (x, y) != pos(p) {
                        let j = choose|j: int| 0 <= j < sub2.len() && #[trigger] pos(sub2[j]) == (x, y);
                        assert(pos(sub[j]) == (x, y));
                    }
                }
            }
            k += 1;
        }
        proof {
            assert(pts@.subrange(0, pts@.len() as int) =~= pts@);
            assert forall|x: int, y: int| v.in_bounds(x, y) implies #[trigger] self@.at(x, y) == paint_view(
                v,
                island.points@,
                *color,
            ).at(x, y) by {
                lemma_view_from_fn_at(
                    v.width,
                    v.height,
                    |x: int, y: int| if in_points(island.points@, (x, y)) { *color } else { v.at(x, y) },
                    x,
                    y,
                );
            }
            lemma_view_ext(self@, paint_view(v, island.points@, *color));
        }
    }

    /// Returns this canvas with every position of `island` painted `color`.
    pub fn draw_island(self, island: &Island, color: &Pixel) -> (c: Canvas)
        requires
            self.wf(),
            forall|k: int|
                0 <= k < island.points@.len() ==> self@.in_bounds(
                    #[trigger] island.points@[k].x as int,
                    island.points@[k].y as int,
                ),
        ensures
            c.wf(),
            c@ == paint_view(self@, island.points@, *color),
    {
        let mut c = self;
        c.draw_island_mut(island, color);
        c
    }

    /// Paints `color` over everything a flood fill from `(x, y)` reaches.
    fn fill_region(self, x: u32, y: u32, fill_color: &Pixel, target: &Pixel, limit: u64) -> (c: Canvas)
        requires
            self.wf(),
            self@.in_bounds(x as int, y as int),
        ensures
            c.wf(),
            c@ == fill_view(self@, x as int, y as int, *fill_color, *target, limit as int),
    {
        let ghost v = self@;
        let mut visited = unmarked(self.pixels().len());
        proof {
            assert forall|q: (int, int)|
                #[trigger] reaches(v, *target, limit as int, (x as int, y as int), q) implies !visited@[index_of(
                    v.width as int,
                    q.0,
                    q.1,
                )] by {
                lemma_reaches_in_bounds(v, *target, limit as int, (x as int, y as int), q);
                lemma_index_in_range(v.width as int, v.height as int, q.0, q.1);
            }
        }
        let points = self.explore(&mut visited, x, y, target, limit);
        let island = Island { points };
        proof {
            assert forall|k: int|
                0 <= k < island.points@.len() implies v.in_bounds(
                    #[trigger] island.points@[k].x as int,
                    island.points@[k].y as int,
                ) by {
                assert(v.in_bounds(pos(island.points@[k]).0, pos(island.points@[k]).1));
            }
        }
        let mut c = self;
        c.draw_island_mut(&island, fill_color);
        proof {
            let f = |x: int, y: int| if in_points(island.points@, (x, y)) { *fill_color } else { v.at(x, y) };
            let g = |xx: int, yy: int| if reaches(v, *target, limit as int, (x as int, y as int), (xx, yy)) {
                *fill_color
            } else {
                v.at(xx, yy)
            };
            assert forall|xx: int, yy: int| v.in_bounds(xx, yy) implies #[trigger] c@.at(xx, yy) == fill_view(
                v,
                x as int,
                y as int,
                *fill_color,
                *target,
                limit as int,
            ).at(xx, yy) by {
                lemma_view_from_fn_at(v.width, v.height, f, xx, yy);
                lemma_view_from_fn_at(v.width, v.height, g, xx, yy);
                assert(in_points(island.points@, (xx, yy)) <==> reaches(
                    v,
                    *target,
                    limit as int,
                    (x as int, y as int),
                    (xx, yy),
                ));
            }
            lemma_view_ext(c@, fill_view(v, x as int, y as int, *fill_color, *target, limit as int));
        }
        c
    }

    /// Flood fill: paints `fill_color` over the 4-connected region of the
    /// colour found at `(x, y)`; nothing changes when that colour already is
    /// `fill_color`.
    pub fn fill(self, x: u32, y: u32, fill_color: &Pixel) -> (c: Canvas)
        requires
            self.wf(),
            self@.in_bounds(x as int, y as int),
        ensures
            c.wf(),
            c@ == fill_result(self@, x as int, y as int, *fill_color),
    {
        let target = self.get_pixel(x, y);
        if *fill_color == target {
            return self;
        }
        self.fill_region(x, y, fill_color, &target, 1)
    }

    /// Paints `fill_color` over `(x, y)` and everything connected to it
    /// through pixels closer than `distance` to `color`; nothing changes
    /// when `fill_color` is `color`.
    pub fn fill_by_color_and_distance(self, x: u32, y: u32, fill_color: &Pixel, color: &Pixel, distance: u32) -> (c: Canvas)
        requires
            self.wf(),
            self@.in_bounds(x as int, y as int),
        ensures
            c.wf(),
            c@ == (if *fill_color == *color {
                self@
            } else {
                fill_view(self@, x as int, y as int, *fill_color, *color, distance * distance)
            }),
    {
        if *fill_color == *color {
            return self;
        }
        assert(distance * distance <= u32::MAX * u32::MAX) by (nonlinear_arith)
            requires distance <= u32::MAX;
        let limit = distance as u64 * distance as u64;
        self.fill_region(x, y, fill_color, color, limit)
    }

    /// Paints `fill_color` over `(x, y)` and everything connected to it
    /// through pixels closer than `distance` to the colour found at `(x, y)`.
    pub fn fill_by_distance(self, x: u32, y: u32, fill_color: &Pixel, distance: u32) -> (c: Canvas)
        requires
            self.wf(),
            self@.in_bounds(x as int, y as int),
        ensures
            c.wf(),
            c@ == (if *fill_color == self@.at(x as int, y as int) {
                self@
            } else {
                fill_view(self@, x as int, y as int, *fill_color, self@.at(x as int, y as int), distance * distance)
            }),
    {
        let find_color = self.get_pixel(x, y);
        self.fill_by_color_and_distance(x, y, fill_color, &find_color, distance)
    }
}


/// Row-major position of the first point of `island` in a canvas `w`
/// pixels wide.
pub open spec fn seed_index(w: int, island: Island) -> int {
    index_of(w, island.points@[0].x as int, island.points@[0].y as int)
}

/// Whether `q` belongs to one of `islands`.
pub open spec fn in_islands(islands: Seq<Island>, q: (int, int)) -> bool {
    exists|k: int| 0 <= k < islands.len() && #[trigger] in_points(islands[k].points@, q)
}

/// `island` lists, without repeats, exactly the 4-connected region of colour
/// `color` around its first position, which has that colour.
pub open spec fn is_island_of(v: CanvasView, color: Pixel, island: Island) -> bool {
    let pts = island.points@;
    &&& pts.len() >= 1
    &&& v.in_bounds(pos(pts[0]).0, pos(pts[0]).1)
    &&& v.at(pos(pts[0]).0, pos(pts[0]).1) == color
    &&& forall|k: int| #![trigger pts[k]] 0 <= k < pts.len() ==> v.in_bounds(pos(pts[k]).0, pos(pts[k]).1)
    &&& forall|k1: int, k2: int|
        0 <= k1 < pts.len() && 0 <= k2 < pts.len() && k1 != k2 ==> #[trigger] pts[k1] != #[trigger] pts[k2]
    &&& forall|x: int, y: int|
        v.in_bounds(x, y) ==> (in_points(pts, (x, y)) <==> #[trigger] reaches(v, color, 1, pos(pts[0]), (x, y)))
}

impl Canvas {
    /// Splits the pixels of colour `island_color` into their 4-connected
    /// regions, each listed once and without repeats. Each island starts
    /// with its first pixel in row-major order, and the islands come in the
    /// row-major order of those pixels.
    pub fn find_islands(&self, island_color: &Pixel) -> (islands: Vec<Island>)
        requires
            self.wf(),
        ensures
            forall|k: int| 0 <= k < islands@.len() ==> is_island_of(self@, *island_color, #[trigger] islands@[k]),
            forall|k1: int, k2: int, q: (int, int)|
                0 <= k1 < islands@.len() && 0 <= k2 < islands@.len() && k1 != k2 ==> !(#[trigger] in_points(
                    islands@[k1].points@,
                    q,
                ) && #[trigger] in_points(islands@[k2].points@, q)),
            forall|x: int, y: int|
                self@.in_bounds(x, y) ==> (self@.at(x, y) == *island_color <==> #[trigger] in_islands(
                    islands@,
                    (x, y),
                )),
            total_points(islands@) == count_color(self@.pixels, *island_color),
            forall|k: int, j: int|
                0 <= k < islands@.len() && 0 <= j < islands@[k].points@.len() ==> seed_index(
                    self@.width as int,
                    #[trigger] islands@[k],
                ) <= index_of(
                    self@.width as int,
                    #[trigger] islands@[k].points@[j].x as int,
                    islands@[k].points@[j].y as int,
                ),
            forall|k1: int, k2: int|
                0 <= k1 < k2 < islands@.len() ==> seed_index(self@.width as int, #[trigger] islands@[k1])
                    < seed_index(self@.width as int, #[trigger] islands@[k2]),
    {
        let ghost v = self@;
        let ghost color = *island_color;
        let n = self.pixels().len();
        let w = self.dimensions().width;
        let ghost h = v.height;
        let mut visited = unmarked(n);
        let mut islands: Vec<Island> = Vec::new();
        let mut i: usize = 0;
        proof {
            assert forall|x: int, y: int| v.in_bounds(x, y) implies !#[trigger] visited@[index_of(w as int, x, y)] by {
                lemma_index_in_range(w as int, h as int, x, y);
            }
        }
        while i < n
            invariant
                self.wf(),
                v == self@,
                color == *island_color,
                n == v.pixels.len(),
                w == v.width,
                h == v.height,
                i <= n,
                visited@.len() == n,
                forall|x: int, y: int|
                    v.in_bounds(x, y) ==> (#[trigger] visited@[index_of(w as int, x, y)] == in_islands(
                        islands@,
                        (x, y),
                    )),
                forall|p: (int, int), q: (int, int)|
                    v.in_bounds(p.0, p.1) && #[trigger] visited@[index_of(w as int, p.0, p.1)] && adjacent(p, q)
                        && near(v, color, 1, q) ==> #[trigger] visited@[index_of(w as int, q.0, q.1)],
                forall|x: int, y: int|
                    v.in_bounds(x, y) && #[trigger] visited@[index_of(w as int, x, y)] ==> v.at(x, y) == color,
                forall|j: int| 0 <= j < i && v.pixels[j] == color ==> #[trigger] visited@[j],
                forall|k: int| 0 <= k < islands@.len() ==> is_island_of(v, color, #[trigger] islands@[k]),
                forall|k1: int, k2: int, q: (int, int)|
                    0 <= k1 < islands@.len() && 0 <= k2 < islands@.len() && k1 != k2 ==> !(#[trigger] in_points(
                        islands@[k1].points@,
                        q,
                    ) && #[trigger] in_points(islands@[k2].points@, q)),
                count_true(visited@) == total_points(islands@),
                forall|k: int| 0 <= k < islands@.len() ==> seed_index(w as int, #[trigger] islands@[k]) < i,
                forall|k: int, j: int|
                    0 <= k < islands@.len() && 0 <= j < islands@[k].points@.len() ==> seed_index(
                        w as int,
                        #[trigger] islands@[k],
                    ) <= index_of(
                        w as int,
                        #[trigger] islands@[k].points@[j].x as int,
                        islands@[k].points@[j].y as int,
                    ),
                forall|k1: int, k2: int|
                    0 <= k1 < k2 < islands@.len() ==> seed_index(w as int, #[trigger] islands@[k1]) < seed_index(
                        w as int,
                        #[trigger] islands@[k2],
                    ),
            decreases n - i,
        {
            if !visited[i] && self.pixels()[i] == *island_color {
                let x = (i as u32) % w;
                let y = (i as u32) / w;
                let ghost s = (x as int, y as int);
                proof {
                    lemma_position_of_index(w as int, h as int, i as int);
                    lemma_dist_sq_zero(v.at(x as int, y as int), color);
                    assert(near(v, color, 1, s));
                    let marked = |q: (int, int)| v.in_bounds(q.0, q.1) && visited@[index_of(w as int, q.0, q.1)];
                    assert forall|p: (int, int), q: (int, int)|
                        #[trigger] marked(p) && adjacent(p, q) && near(v, color, 1, q) implies #[trigger] marked(q) by {
                        assert(visited@[index_of(w as int, q.0, q.1)]);
                    }
                    assert forall|q: (int, int)|
                        #[trigger] reaches(v, color, 1, s, q) implies !visited@[index_of(v.width as int, q.0, q.1)] by {
                        lemma_reaches_avoids(v, color, 1, s, q, marked);
                        lemma_reaches_in_bounds(v, color, 1, s, q);
                    }
                }
                let ghost vis_before = visited@;
                let ghost isl_before = islands@;
                let points = self.explore(&mut visited, x, y, island_color, 1);
                let island = Island { points };
                islands.push(island);
                proof {
                    lemma_total_points_push(isl_before, island);
                    assert(islands@ == isl_before.push(island));
                    assert forall|k: int| 0 <= k < islands@.len() implies is_island_of(v, color, #[trigger] islands@[k]) by {
                        if k < isl_before.len() {
                            assert(islands@[k] == isl_before[k]);
                        } else {
                            assert(islands@[k] == island);
                            let pts = island.points@;
                            assert forall|kk: int| #![trigger pts[kk]] 0 <= kk < pts.len() implies v.in_bounds(
                                pos(pts[kk]).0,
                                pos(pts[kk]).1,
                            ) by {}
                        }
                    }
                    assert forall|xx: int, yy: int| v.in_bounds(xx, yy) implies (#[trigger] visited@[index_of(
                        w as int,
                        xx,
                        yy,
                    )] == in_islands(islands@, (xx, yy))) by {
                        assert(visited@[index_of(w as int, xx, yy)] == (vis_before[index_of(w as int, xx, yy)]
                            || in_points(island.points@, (xx, yy))));
                        if in_islands(isl_before, (xx, yy)) {
                            let k = choose|k: int| 0 <= k < isl_before.len() && #[trigger] in_points(isl_before[k].points@, (xx, yy));
                            assert(islands@[k] == isl_before[k]);
                        }
                        if in_points(island.points@, (xx, yy)) {
                            assert(islands@[isl_before.len() as int] == island);
                        }
                        if in_islands(islands@, (xx, yy)) {
                            let k = choose|k: int| 0 <= k < islands@.len() && #[trigger] in_points(islands@[k].points@, (xx, yy));
                            if k < isl_before.len() {
                                assert(islands@[k] == isl_before[k]);
                            }
                        }
                    }
                    assert forall|p: (int, int), q: (int, int)|
                        v.in_bounds(p.0, p.1) && #[trigger] visited@[index_of(w as int, p.0, p.1)] && adjacent(p, q)
                            && near(v, color, 1, q) implies #[trigger] visited@[index_of(w as int, q.0, q.1)] by {
                        lemma_index_in_range(w as int, h as int, q.0, q.1);
                        if vis_before[index_of(w as int, p.0, p.1)] {
                            assert(vis_before[index_of(w as int, q.0, q.1)]);
                        } else {
                            assert(reaches(v, color, 1, s, p));
                            lemma_reaches_step(v, color, 1, s, p, q);
                            assert(reaches(v, color, 1, s, (q.0, q.1)));
                        }
                    }
                    assert forall|xx: int, yy: int|
                        v.in_bounds(xx, yy) && #[trigger] visited@[index_of(w as int, xx, yy)] implies v.at(xx, yy) == color by {
                        if !vis_before[index_of(w as int, xx, yy)] {
                            assert(reaches(v, color, 1, s, (xx, yy)));
                            lemma_reaches_near(v, color, 1, s, (xx, yy));
                            lemma_dist_sq_zero(v.at(xx, yy), color);
                        }
                    }
                    assert(pos(island.points@[0]) == s);
                    assert(seed_index(w as int, island) == i);
                    assert forall|jj: int| 0 <= jj < island.points@.len() implies seed_index(w as int, island) <= index_of(
                        w as int,
                        #[trigger] island.points@[jj].x as int,
                        island.points@[jj].y as int,
                    ) by {
                        let q = pos(island.points@[jj]);
                        assert(v.in_bounds(q.0, q.1) && reaches(v, color, 1, s, q));
                        lemma_index_in_range(w as int, h as int, q.0, q.1);
                        if index_of(w as int, q.0, q.1) < i {
                            lemma_reaches_near(v, color, 1, s, q);
                            lemma_dist_sq_zero(v.at(q.0, q.1), color);
                            assert(vis_before[index_of(w as int, q.0, q.1)]);
                        }
                    }
                    assert forall|k: int, jj: int|
                        0 <= k < islands@.len() && 0 <= jj < islands@[k].points@.len() implies seed_index(
                            w as int,
                            #[trigger] islands@[k],
                        ) <= index_of(
                            w as int,
                            #[trigger] islands@[k].points@[jj].x as int,
                            islands@[k].points@[jj].y as int,
                        ) by {
                        if k < isl_before.len() {
                            assert(islands@[k] == isl_before[k]);
                        } else {
                            assert(islands@[k] == island);
                            assert(island.points@[jj] == islands@[k].points@[jj]);
                        }
                    }
                    assert forall|k1: int, k2: int|
                        0 <= k1 < k2 < islands@.len() implies seed_index(w as int, #[trigger] islands@[k1]) < seed_index(
                            w as int,
                            #[trigger] islands@[k2],
                        ) by {
                        assert(islands@[k1] == isl_before[k1]);
                        if k2 < isl_before.len() {
                            assert(islands@[k2] == isl_before[k2]);
                        }
                    }
                    assert forall|k: int| 0 <= k < islands@.len() implies seed_index(w as int, #[trigger] islands@[k]) < i + 1 by {
                        if k < isl_before.len() {
                            assert(islands@[k] == isl_before[k]);
                        }
                    }
                    assert forall|j: int| 0 <= j < i + 1 && v.pixels[j] == color implies #[trigger] visited@[j] by {
                        lemma_position_of_index(w as int, h as int, j);
                        if j < i {
                            assert(vis_before[j]);
                            assert(vis_before[index_of(w as int, j % (w as int), j / (w as int))]);
                        } else {
                            lemma_reaches_start(v, color, 1, s);
                        }
                    }
                    assert forall|k1: int, k2: int, q: (int, int)|
                        0 <= k1 < islands@.len() && 0 <= k2 < islands@.len() && k1 != k2 implies !(#[trigger] in_points(
                            islands@[k1].points@,
                            q,
                        ) && #[trigger] in_points(islands@[k2].points@, q)) by {
                        if k1 < isl_before.len() && k2 < isl_before.len() {
                            assert(islands@[k1] == isl_before[k1]);
                            assert(islands@[k2] == isl_before[k2]);
                        } else if in_points(islands@[k1].points@, q) && in_points(islands@[k2].points@, q) {
                            let (ko, kn) = if k1 < isl_before.len() { (k1, k2) } else { (k2, k1) };
                            assert(islands@[ko] == isl_before[ko]);
                            assert(islands@[kn] == island);
                            let j = choose|j: int| 0 <= j < island.points@.len() && #[trigger] pos(island.points@[j]) == q;
                            assert(v.in_bounds(pos(island.points@[j]).0, pos(island.points@[j]).1));
                            assert(in_islands(isl_before, q));
                            assert(vis_before[index_of(w as int, q.0, q.1)]);
                            assert(reaches(v, color, 1, s, q));
                        }
                    }
                }
            }
            i += 1;
        }
        proof {
            assert forall|j: int| 0 <= j < visited@.len() implies (#[trigger] visited@[j] <==> v.pixels[j] == color) by {
                lemma_position_of_index(w as int, h as int, j);
                assert(visited@[index_of(w as int, j % (w as int), j / (w as int))] ==> v.at(j % (w as int), j / (w as int)) == color);
            }
            lemma_count_true_color(visited@, v.pixels, color);
            assert forall|x: int, y: int|
                v.in_bounds(x, y) implies (v.at(x, y) == color <==> #[trigger] in_islands(islands@, (x, y))) by {
                lemma_index_in_range(w as int, h as int, x, y);
                assert(visited@[index_of(w as int, x, y)] == in_islands(islands@, (x, y)));
            }
        }
        islands
    }
}


/// On a canvas of one colour, a flood fill from `s` reaches every position.
proof fn lemma_reaches_uniform(v: CanvasView, a: Pixel, s: (int, int), q: (int, int))
    requires
        v.wf(),
        forall|x: int, y: int| v.in_bounds(x, y) ==> #[trigger] v.at(x, y) == a,
        v.in_bounds(s.0, s.1),
        v.in_bounds(q.0, q.1),
    ensures
        reaches(v, a, 1, s, q),
    decreases (if q.0 >= s.0 { q.0 - s.0 } else { s.0 - q.0 }) + (if q.1 >= s.1 { q.1 - s.1 } else { s.1 - q.1 }),
{
    lemma_dist_sq_zero(a, a);
    if q == s {
        lemma_reaches_start(v, a, 1, s);
    } else {
        let p = if q.1 != s.1 {
            if q.1 > s.1 { (q.0, q.1 - 1) } else { (q.0, q.1 + 1) }
        } else {
            if q.0 > s.0 { (q.0 - 1, q.1) } else { (q.0 + 1, q.1) }
        };
        lemma_reaches_uniform(v, a, s, p);
        assert(near(v, a, 1, q));
        lemma_reaches_step(v, a, 1, s, p, q);
    }
}

/// Filling a canvas of one colour anywhere with `c` leaves every pixel `c`.
pub proof fn lemma_fill_uniform(v: CanvasView, a: Pixel, sx: int, sy: int, c: Pixel)
    requires
        v.wf(),
        forall|x: int, y: int| v.in_bounds(x, y) ==> #[trigger] v.at(x, y) == a,
        v.in_bounds(sx, sy),
    ensures
        fill_result(v, sx, sy, c).wf(),
        fill_result(v, sx, sy, c).width == v.width,
        fill_result(v, sx, sy, c).height == v.height,
        forall|x: int, y: int| v.in_bounds(x, y) ==> #[trigger] fill_result(v, sx, sy, c).at(x, y) == c,
{
    assert forall|x: int, y: int| v.in_bounds(x, y) implies #[trigger] fill_result(v, sx, sy, c).at(x, y) == c by {
        let f = |xx: int, yy: int| if reaches(v, a, 1, (sx, sy), (xx, yy)) { c } else { v.at(xx, yy) };
        if c != a {
            lemma_view_from_fn_at(v.width, v.height, f, x, y);
            lemma_reaches_uniform(v, a, (sx, sy), (x, y));
        }
    }
}

/// On a canvas of one colour, flood fills with the same colour from any two
/// starting positions give the same canvas.
pub proof fn lemma_fill_uniform_same(v: CanvasView, a: Pixel, x1: int, y1: int, x2: int, y2: int, c: Pixel)
    requires
        v.wf(),
        forall|x: int, y: int| v.in_bounds(x, y) ==> #[trigger] v.at(x, y) == a,
        v.in_bounds(x1, y1),
        v.in_bounds(x2, y2),
    ensures
        fill_result(v, x1, y1, c) == fill_result(v, x2, y2, c),
{
    lemma_fill_uniform(v, a, x1, y1, c);
    lemma_fill_uniform(v, a, x2, y2, c);
    let r1 = fill_result(v, x1, y1, c);
    let r2 = fill_result(v, x2, y2, c);
    assert forall|x: int, y: int| r1.in_bounds(x, y) implies #[trigger] r1.at(x, y) == r2.at(x, y) by {
        assert(r1.at(x, y) == c);
        assert(r2.at(x, y) == c);
    }
    lemma_view_ext(r1, r2);
}

proof fn lemma_count_color_same(s1: Seq<Pixel>, s2: Seq<Pixel>, b: Pixel)
    requires
        s1.len() == s2.len(),
        forall|i: int| 0 <= i < s1.len() ==> (#[trigger] s1[i] == b <==> s2[i] == b),
    ensures
        count_color(s1, b) == count_color(s2, b),
    decreases s1.len(),
{
    if s1.len() > 0 {
        lemma_count_color_same(s1.drop_last(), s2.drop_last(), b);
    }
}

/// A flood fill with `d` from a pixel of colour `A` changes only pixels of
/// colour `A`, each into `d`; so the number of pixels of any colour other
/// than `A` and `d` stays the same.
pub proof fn lemma_fill_changes_only_target(v: CanvasView, sx: int, sy: int, d: Pixel, other: Pixel)
    requires
        v.wf(),
        v.in_bounds(sx, sy),
        other != v.at(sx, sy),
        other != d,
    ensures
        fill_result(v, sx, sy, d).wf(),
        fill_result(v, sx, sy, d).width == v.width,
        fill_result(v, sx, sy, d).height == v.height,
        forall|x: int, y: int|
            v.in_bounds(x, y) && #[trigger] fill_result(v, sx, sy, d).at(x, y) != v.at(x, y) ==> v.at(x, y)
                == v.at(sx, sy) && fill_result(v, sx, sy, d).at(x, y) == d,
        count_color(fill_result(v, sx, sy, d).pixels, other) == count_color(v.pixels, other),
{
    let a = v.at(sx, sy);
    let r = fill_result(v, sx, sy, d);
    let f = |xx: int, yy: int| if reaches(v, a, 1, (sx, sy), (xx, yy)) { d } else { v.at(xx, yy) };
    lemma_dist_sq_zero(a, a);
    assert forall|x: int, y: int| v.in_bounds(x, y) implies (r.at(x, y) == if reaches(v, a, 1, (sx, sy), (x, y)) {
        d
    } else {
        v.at(x, y)
    }) by {
        if d != a {
            lemma_view_from_fn_at(v.width, v.height, f, x, y);
        } else if reaches(v, a, 1, (sx, sy), (x, y)) {
            lemma_reaches_near(v, a, 1, (sx, sy), (x, y));
            lemma_dist_sq_zero(v.at(x, y), a);
        }
    }
    assert forall|x: int, y: int|
        v.in_bounds(x, y) && #[trigger] r.at(x, y) != v.at(x, y) implies v.at(x, y) == a && r.at(x, y) == d by {
        if reaches(v, a, 1, (sx, sy), (x, y)) {
            lemma_reaches_near(v, a, 1, (sx, sy), (x, y));
            lemma_dist_sq_zero(v.at(x, y), a);
        }
    }
    assert(v.height * v.width == v.width * v.height) by (nonlinear_arith);
    assert forall|i: int| 0 <= i < v.pixels.len() implies (#[trigger] r.pixels[i] == other <==> v.pixels[i] == other) by {
        lemma_position_of_index(v.width as int, v.height as int, i);
        let x = i % (v.width as int);
        let y = i / (v.width as int);
        assert(r.at(x, y) == r.pixels[i]);
        assert(v.at(x, y) == v.pixels[i]);
        if r.at(x, y) != v.at(x, y) {
            assert(v.at(x, y) == a && r.at(x, y) == d);
        }
    }
    lemma_count_color_same(r.pixels, v.pixels, other);
}

} // verus!
