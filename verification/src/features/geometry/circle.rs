use vstd::prelude::*;

use crate::features::geometry::{offset_pairs, Offset, Point};

verus! {

// ---------------------------------------------------------------------------
// Specification
// ---------------------------------------------------------------------------

/// The mirror images of `(x, y)` for one sign of `x` and one sign of `y`:
/// the point itself and, off the diagonal, its reflection across it.
pub open spec fn signed_pair(x_sign: int, y_sign: int, x: int, y: int) -> Seq<(int, int)> {
    if x != y {
        seq![(x_sign * x, y_sign * y), (y_sign * y, x_sign * x)]
    } else {
        seq![(x_sign * x, y_sign * y)]
    }
}

/// The mirror images of `(x, y)` for one sign of `x` and both signs of `y`.
pub open spec fn signed_half(x_sign: int, x: int, y: int) -> Seq<(int, int)> {
    signed_pair(x_sign, -1, x, y) + signed_pair(x_sign, 1, x, y)
}

/// The eight-fold symmetric images of one first-octant point `(x, y)`, in the
/// order in which they are emitted. For `x == 0` only the negative sign of `x`
/// is used, since both signs give the same points.
pub open spec fn octant_images(x: int, y: int) -> Seq<(int, int)> {
    if x == 0 {
        signed_half(-1, x, y)
    } else {
        signed_half(-1, x, y) + signed_half(1, x, y)
    }
}

/// The decision value of the midpoint rule at first-octant point `(x, y)` of
/// the circle of radius `r`: when it is positive the next point steps down in `y`.
pub open spec fn decision(x: int, y: int, r: int) -> int {
    2 * (x + 1) * (x + 1) + y * y + (y - 1) * (y - 1) - 2 * r * r + 4 * x + 4 * (r - y)
}

/// The first-octant point that follows `(x, y)`.
pub open spec fn next_point(x: int, y: int, r: int) -> (int, int) {
    if decision(x, y, r) > 0 {
        (x + 1, y - 1)
    } else {
        (x + 1, y)
    }
}

/// The first-octant points that follow `(x, y)` while `y >= x`; the walk
/// ends with the first point past the diagonal.
pub open spec fn arc_from(x: int, y: int, r: int) -> Seq<(int, int)>
    decreases y - x + 2,
{
    if y >= x {
        let (x1, y1) = next_point(x, y, r);
        seq![(x1, y1)] + arc_from(x1, y1, r)
    } else {
        seq![]
    }
}

/// All first-octant points of the circle of radius `r`, starting at `(0, r)`.
pub open spec fn arc(r: int) -> Seq<(int, int)> {
    seq![(0, r)] + arc_from(0, r, r)
}

/// The symmetric images of every point of `points`, in order.
pub open spec fn images_of(points: Seq<(int, int)>) -> Seq<(int, int)>
    decreases points.len(),
{
    if points.len() == 0 {
        seq![]
    } else {
        images_of(points.drop_last()) + octant_images(points.last().0, points.last().1)
    }
}

/// The offsets of the rasterised circle of radius `r`.
pub open spec fn circle_offsets(r: int) -> Seq<(int, int)> {
    images_of(arc(r))
}

/// What holds of every first-octant point that the walk visits on a circle of
/// radius `r >= 1`: its coordinates are non-negative and bounded, it is at
/// most two steps past the diagonal, and its squared distance from the origin
/// is within `[r*r - 3*r, r*r + r - 1]` (within `r*r + r - 3` on the diagonal).
pub open spec fn on_arc(x: int, y: int, r: int) -> bool {
    let e = x * x + y * y - r * r;
    &&& r >= 1
    &&& 0 <= x <= r + 1
    &&& 0 <= y <= r
    &&& y >= x - 2
    &&& -3 * r <= e <= r - 1
    &&& x == y ==> e <= r - 3
    &&& x == 0 ==> y == r
}

// ---------------------------------------------------------------------------
// Proofs about the walk
// ---------------------------------------------------------------------------

/// The decision value is a linear function of the squared-distance error.
proof fn lemma_decision_linear(x: int, y: int, r: int)
    ensures
        decision(x, y, r) == 2 * (x * x + y * y - r * r) + 8 * x - 6 * y + 4 * r + 3,
{
    assert(decision(x, y, r) == 2 * (x * x + y * y - r * r) + 8 * x - 6 * y + 4 * r + 3)
        by (nonlinear_arith);
}

/// How the squared distance changes over one step.
proof fn lemma_step_error(x: int, y: int, r: int)
    ensures
        (x + 1) * (x + 1) + (y - 1) * (y - 1) - r * r == (x * x + y * y - r * r) + 2 * x - 2 * y
            + 2,
        (x + 1) * (x + 1) + y * y - r * r == (x * x + y * y - r * r) + 2 * x + 1,
{
    assert((x + 1) * (x + 1) + (y - 1) * (y - 1) - r * r == (x * x + y * y - r * r) + 2 * x - 2
        * y + 2) by (nonlinear_arith);
    assert((x + 1) * (x + 1) + y * y - r * r == (x * x + y * y - r * r) + 2 * x + 1)
        by (nonlinear_arith);
}

/// How the decision value changes over one step.
proof fn lemma_decision_step(x: int, y: int, r: int)
    ensures
        decision(x, y, r) > 0 ==> decision(x + 1, y - 1, r) == decision(x, y, r) + 4 * ((x + 1)
            - (y - 1)) + 10,
        decision(x, y, r) <= 0 ==> decision(x + 1, y, r) == decision(x, y, r) + 4 * (x + 1) + 6,
{
    lemma_decision_linear(x, y, r);
    lemma_decision_linear(x + 1, y - 1, r);
    lemma_decision_linear(x + 1, y, r);
    lemma_step_error(x, y, r);
}

/// One step of the walk keeps the point on the arc.
proof fn lemma_step_on_arc(x: int, y: int, r: int)
    requires
        on_arc(x, y, r),
        y >= x,
    ensures
        on_arc(next_point(x, y, r).0, next_point(x, y, r).1, r),
{
    let e = x * x + y * y - r * r;
    lemma_decision_linear(x, y, r);
    lemma_step_error(x, y, r);
    if decision(x, y, r) <= 0 && y == x + 1 && r == 1 {
        assert(x == 0 && y == 1);
        assert(e == 0);
    }
}

/// Every point that the walk visits from an on-arc point is on the arc.
proof fn lemma_arc_from_on_arc(x: int, y: int, r: int)
    requires
        on_arc(x, y, r),
    ensures
        forall|i: int|
            0 <= i < arc_from(x, y, r).len() ==> on_arc(
                #[trigger] arc_from(x, y, r)[i].0,
                arc_from(x, y, r)[i].1,
                r,
            ),
    decreases y - x + 2,
{
    if y >= x {
        lemma_step_on_arc(x, y, r);
        let (x1, y1) = next_point(x, y, r);
        lemma_arc_from_on_arc(x1, y1, r);
        assert forall|i: int| 0 <= i < arc_from(x, y, r).len() implies on_arc(
            #[trigger] arc_from(x, y, r)[i].0,
            arc_from(x, y, r)[i].1,
            r,
        ) by {
            if i > 0 {
                assert(arc_from(x, y, r)[i] == arc_from(x1, y1, r)[i - 1]);
            }
        }
    }
}

/// Every point of the first-octant arc of a circle of radius `r >= 1` is on the arc.
proof fn lemma_arc_on_arc(r: int)
    requires
        r >= 1,
    ensures
        forall|i: int| 0 <= i < arc(r).len() ==> on_arc(#[trigger] arc(r)[i].0, arc(r)[i].1, r),
{
    assert(on_arc(0, r, r));
    lemma_arc_from_on_arc(0, r, r);
    assert forall|i: int| 0 <= i < arc(r).len() implies on_arc(
        #[trigger] arc(r)[i].0,
        arc(r)[i].1,
        r,
    ) by {
        if i > 0 {
            assert(arc(r)[i] == arc_from(0, r, r)[i - 1]);
        }
    }
}

/// `p` is one of the eight mirror images of `(x, y)` across the axes and diagonals.
pub open spec fn is_mirror_image(p: (int, int), x: int, y: int) -> bool {
    ||| (p.0 == x || p.0 == -x) && (p.1 == y || p.1 == -y)
    ||| (p.0 == y || p.0 == -y) && (p.1 == x || p.1 == -x)
}

/// The images emitted for `(x, y)` are exactly its mirror images.
proof fn lemma_octant_members(x: int, y: int)
    ensures
        forall|p: (int, int)| #[trigger] octant_images(x, y).contains(p) <==> is_mirror_image(p, x, y),
{
    let s = octant_images(x, y);
    if x == 0 {
        if y == 0 {
            assert(s =~= seq![(0int, 0int), (0int, 0int)]);
        } else {
            assert(s =~= seq![(0int, -y), (-y, 0int), (0int, y), (y, 0int)]);
        }
    } else if x == y {
        assert(s =~= seq![(-x, -y), (-x, y), (x, -y), (x, y)]);
    } else {
        assert(s =~= seq![(-x, -y), (-y, -x), (-x, y), (y, -x), (x, -y), (-y, x), (x, y), (y, x)]);
    }
    assert forall|p: (int, int)| is_mirror_image(p, x, y) implies s.contains(p) by {
        if x == 0 {
            if y == 0 {
                assert(s[0] == p);
            } else if p == s[0] {
            } else if p == s[1] {
            } else if p == s[2] {
            } else {
                assert(p == s[3]);
            }
        } else if x == y {
            if p == s[0] {
            } else if p == s[1] {
            } else if p == s[2] {
            } else {
                assert(p == s[3]);
            }
        } else {
            if p == s[0] {
            } else if p == s[1] {
            } else if p == s[2] {
            } else if p == s[3] {
            } else if p == s[4] {
            } else if p == s[5] {
            } else if p == s[6] {
            } else {
                assert(p == s[7]);
            }
        }
    }
}

/// A point is among the images of a sequence of first-octant points exactly
/// when it is among the images of one of them.
proof fn lemma_images_of_members(points: Seq<(int, int)>, p: (int, int))
    ensures
        images_of(points).contains(p) <==> exists|j: int|
            0 <= j < points.len() && #[trigger] octant_images(points[j].0, points[j].1).contains(p),
    decreases points.len(),
{
    if points.len() > 0 {
        let init = points.drop_last();
        let last = points.last();
        lemma_images_of_members(init, p);
        let s = images_of(init) + octant_images(last.0, last.1);
        assert(images_of(points) == s);
        if s.contains(p) {
            let i = choose|i: int| 0 <= i < s.len() && s[i] == p;
            if i < images_of(init).len() {
                assert(images_of(init)[i] == p);
                assert(images_of(init).contains(p));
                let j = choose|j: int|
                    0 <= j < init.len() && #[trigger] octant_images(init[j].0, init[j].1).contains(
                        p,
                    );
                assert(points[j] == init[j]);
            } else {
                let k = i - images_of(init).len();
                assert(octant_images(last.0, last.1)[k] == p);
                assert(octant_images(points[points.len() - 1].0, points[points.len() - 1].1).contains(p));
            }
        }
        if exists|j: int|
            0 <= j < points.len() && #[trigger] octant_images(points[j].0, points[j].1).contains(p) {
            let j = choose|j: int|
                0 <= j < points.len() && #[trigger] octant_images(points[j].0, points[j].1).contains(
                    p,
                );
            let o = octant_images(points[j].0, points[j].1);
            let k = choose|k: int| 0 <= k < o.len() && o[k] == p;
            if j < init.len() {
                assert(init[j] == points[j]);
                assert(images_of(init).contains(p));
                let i = choose|i: int| 0 <= i < images_of(init).len() && images_of(init)[i] == p;
                assert(s[i] == p);
            } else {
                assert(s[images_of(init).len() + k] == p);
            }
        }
    }
}

/// The squared length and the coordinate bounds of a mirror image are those of its source.
proof fn lemma_mirror_image_bounds(p: (int, int), x: int, y: int, r: int)
    requires
        is_mirror_image(p, x, y),
        0 <= x <= r,
        0 <= y <= r,
    ensures
        p.0 * p.0 + p.1 * p.1 == x * x + y * y,
        -r <= p.0 <= r,
        -r <= p.1 <= r,
{
    assert((-x) * (-x) == x * x) by (nonlinear_arith);
    assert((-y) * (-y) == y * y) by (nonlinear_arith);
}

/// An on-arc point lies within one radius of the origin in each coordinate.
proof fn lemma_on_arc_within_radius(x: int, y: int, r: int)
    requires
        on_arc(x, y, r),
    ensures
        x <= r,
{
    if x > r {
        assert(x * x >= (r + 1) * (r + 1)) by (nonlinear_arith)
            requires
                x >= r + 1,
                r >= 1,
        ;
        assert(y * y >= 0) by (nonlinear_arith);
        assert((r + 1) * (r + 1) == r * r + 2 * r + 1) by (nonlinear_arith);
    }
}

// ---------------------------------------------------------------------------
// Laws of the rasterised circle
// ---------------------------------------------------------------------------

/// A rasterised circle is symmetric under reflection across both axes and
/// across the diagonal: with every offset `(a, b)` it also holds `(b, a)`,
/// `(-a, b)` and `(a, -b)`.
pub proof fn lemma_circle_symmetric(r: int, a: int, b: int)
    requires
        circle_offsets(r).contains((a, b)),
    ensures
        circle_offsets(r).contains((b, a)),
        circle_offsets(r).contains((-a, b)),
        circle_offsets(r).contains((a, -b)),
{
    let pts = arc(r);
    lemma_images_of_members(pts, (a, b));
    let j = choose|j: int|
        0 <= j < pts.len() && #[trigger] octant_images(pts[j].0, pts[j].1).contains((a, b));
    let (x, y) = pts[j];
    lemma_octant_members(x, y);
    assert(octant_images(x, y).contains((b, a)));
    assert(octant_images(x, y).contains((-a, b)));
    assert(octant_images(x, y).contains((a, -b)));
    lemma_images_of_members(pts, (b, a));
    lemma_images_of_members(pts, (-a, b));
    lemma_images_of_members(pts, (a, -b));
}

/// Every offset of a rasterised circle of radius `r >= 1` lies within `r` of
/// the center along each axis, and its squared distance from the center is
/// within `r*r - 3*r` and `r*r + r - 1`.
pub proof fn lemma_circle_within_radius(r: int, a: int, b: int)
    requires
        r >= 1,
        circle_offsets(r).contains((a, b)),
    ensures
        -r <= a <= r,
        -r <= b <= r,
        r * r - 3 * r <= a * a + b * b <= r * r + r - 1,
{
    let pts = arc(r);
    lemma_images_of_members(pts, (a, b));
    let j = choose|j: int|
        0 <= j < pts.len() && #[trigger] octant_images(pts[j].0, pts[j].1).contains((a, b));
    let (x, y) = pts[j];
    lemma_arc_on_arc(r);
    assert(on_arc(pts[j].0, pts[j].1, r));
    lemma_on_arc_within_radius(x, y, r);
    lemma_octant_members(x, y);
    lemma_mirror_image_bounds((a, b), x, y, r);
}

/// A rasterised circle holds the four points where it meets the axes.
pub proof fn lemma_circle_meets_axes(r: int)
    ensures
        circle_offsets(r).contains((0, r)),
        circle_offsets(r).contains((0, -r)),
        circle_offsets(r).contains((r, 0)),
        circle_offsets(r).contains((-r, 0)),
{
    let pts = arc(r);
    assert(pts[0] == (0int, r));
    lemma_octant_members(0, r);
    assert(octant_images(pts[0].0, pts[0].1).contains((0, r)));
    assert(octant_images(pts[0].0, pts[0].1).contains((0, -r)));
    assert(octant_images(pts[0].0, pts[0].1).contains((r, 0)));
    assert(octant_images(pts[0].0, pts[0].1).contains((-r, 0)));
    lemma_images_of_members(pts, (0, r));
    lemma_images_of_members(pts, (0, -r));
    lemma_images_of_members(pts, (r, 0));
    lemma_images_of_members(pts, (-r, 0));
}

/// From the point `(x, y)` on, the walk meets every value between `x` and `y`
/// in one of its coordinates: `x` grows by one per step and `y` falls by at
/// most one, so no value is skipped before the walk crosses the diagonal.
proof fn lemma_walk_meets_values(x: int, y: int, r: int, a: int)
    requires
        x <= a <= y,
    ensures
        exists|j: int|
            0 <= j < (seq![(x, y)] + arc_from(x, y, r)).len() && ((#[trigger] (seq![(x, y)] + arc_from(
                x,
                y,
                r,
            ))[j]).0 == a || (seq![(x, y)] + arc_from(x, y, r))[j].1 == a),
    decreases y - x + 2,
{
    let walk = seq![(x, y)] + arc_from(x, y, r);
    if a == x || a == y {
        assert(walk[0] == (x, y));
    } else {
        let (x1, y1) = next_point(x, y, r);
        assert(arc_from(x, y, r) == seq![(x1, y1)] + arc_from(x1, y1, r));
        lemma_walk_meets_values(x1, y1, r, a);
        let rest = seq![(x1, y1)] + arc_from(x1, y1, r);
        let j = choose|j: int|
            0 <= j < rest.len() && ((#[trigger] rest[j]).0 == a || rest[j].1 == a);
        assert(walk[j + 1] == rest[j]);
    }
}

/// The rasterised circle of radius `r` has no gap: every column and every row
/// from `-r` to `r` holds at least one of its offsets.
pub proof fn lemma_circle_has_no_gap(r: int, a: int)
    requires
        0 <= r,
        -r <= a <= r,
    ensures
        exists|b: int| circle_offsets(r).contains((a, b)),
        exists|b: int| circle_offsets(r).contains((b, a)),
{
    let pts = arc(r);
    let m = if a >= 0 { a } else { -a };
    lemma_walk_meets_values(0, r, r, m);
    assert(pts == seq![(0, r)] + arc_from(0, r, r));
    let j = choose|j: int| 0 <= j < pts.len() && ((#[trigger] pts[j]).0 == m || pts[j].1 == m);
    let (x, y) = pts[j];
    let other = if x == m { y } else { x };
    lemma_octant_members(x, y);
    assert(is_mirror_image((a, other), x, y));
    assert(is_mirror_image((other, a), x, y));
    assert(octant_images(pts[j].0, pts[j].1).contains((a, other)));
    assert(octant_images(pts[j].0, pts[j].1).contains((other, a)));
    lemma_images_of_members(pts, (a, other));
    lemma_images_of_members(pts, (other, a));
    assert(circle_offsets(r).contains((a, other)));
    assert(circle_offsets(r).contains((other, a)));
}

// ---------------------------------------------------------------------------
// Implementation
// ---------------------------------------------------------------------------

/// The symmetric images of the first-octant point `(x, y)`.
fn bresenham_octant(x: isize, y: isize) -> (points: Vec<Offset>)
    requires
        x > isize::MIN,
        y > isize::MIN,
    ensures
        offset_pairs(points@) == octant_images(x as int, y as int),
{
    let start: isize = -1;
    let x_end: isize = if x == 0 { 0 } else { 2 };
    let y_end: isize = 2;
    let mut points = Vec::<Offset>::new();

    let mut x_sign: isize = start;
    while x_sign < x_end
        invariant
            x > isize::MIN,
            y > isize::MIN,
            start == -1,
            x_end == (if x == 0 { 0isize } else { 2isize }),
            y_end == 2,
            x_sign == -1 || x_sign == 1 || x_sign == 3,
            x_sign <= x_end + 1,
            x_sign == -1 ==> offset_pairs(points@) == Seq::<(int, int)>::empty(),
            x_sign == 1 ==> offset_pairs(points@) == signed_half(-1, x as int, y as int),
            x_sign == 3 ==> offset_pairs(points@) == signed_half(-1, x as int, y as int)
                + signed_half(1, x as int, y as int),
        decreases x_end + 1 - x_sign,
    {
        let ghost before = offset_pairs(points@);
        let mut y_sign: isize = start;
        while y_sign < y_end
            invariant
                x > isize::MIN,
                y > isize::MIN,
                x_sign == -1 || x_sign == 1,
                y_end == 2,
                y_sign == -1 || y_sign == 1 || y_sign == 3,
                y_sign == -1 ==> offset_pairs(points@) == before,
                y_sign == 1 ==> offset_pairs(points@) == before + signed_pair(
                    x_sign as int,
                    -1,
                    x as int,
                    y as int,
                ),
                y_sign == 3 ==> offset_pairs(points@) == before + signed_half(
                    x_sign as int,
                    x as int,
                    y as int,
                ),
            decreases y_end + 1 - y_sign,
        {
            let ghost inner_before = offset_pairs(points@);
            assert(isize::MIN <= x_sign * x <= isize::MAX && isize::MIN <= y_sign * y <= isize::MAX)
                by (nonlinear_arith)
                requires
                    x_sign == -1 || x_sign == 1,
                    y_sign == -1 || y_sign == 1,
                    x > isize::MIN,
                    y > isize::MIN,
            ;
            let x_signed = x_sign * x;
            let y_signed = y_sign * y;

            points.push(Offset { x: x_signed, y: y_signed });
            if x != y {
                points.push(Offset { x: y_signed, y: x_signed });
            }
            assert(offset_pairs(points@) == inner_before + signed_pair(
                x_sign as int,
                y_sign as int,
                x as int,
                y as int,
            ));
            y_sign = y_sign + 2;
        }
        x_sign = x_sign + 2;
    }
    points
}

/// A rasterised circle: its center and the offsets of its pixels from the center.
#[derive(Debug, Clone)]
pub struct Circle {
    pub x_center: usize,
    pub y_center: usize,
    pub offsets: Vec<Offset>,
}

impl Circle {
    /// The center moved by the `i`-th offset, computed in
    /// machine arithmetic: the center is reinterpreted as `isize`, the offset is
    /// added, and the sum is reinterpreted as `usize` (a negative sum wraps).
    pub open spec fn spec_point(&self, i: int) -> Point<usize> {
        Point {
            x: ((self.x_center as isize) + self.offsets[i].x) as usize,
            y: ((self.y_center as isize) + self.offsets[i].y) as usize,
        }
    }

    /// No sum of the center and an offset leaves the range of `isize`.
    pub open spec fn points_in_range(&self) -> bool {
        forall|i: int|
            0 <= i < self.offsets.len() ==> {
                &&& isize::MIN <= (self.x_center as isize) + #[trigger] self.offsets[i].x <= isize::MAX
                &&& isize::MIN <= (self.y_center as isize) + self.offsets[i].y <= isize::MAX
            }
    }

    /// The pixel locations of the circle: the center moved by each offset, in order.
    pub fn points(&self) -> (points: Vec<Point<usize>>)
        requires
            self.points_in_range(),
        ensures
            points.len() == self.offsets.len(),
            forall|i: int| 0 <= i < points.len() ==> #[trigger] points[i] == self.spec_point(i),
    {
        let mut points = Vec::<Point<usize>>::new();
        let mut i: usize = 0;
        while i < self.offsets.len()
            invariant
                self.points_in_range(),
                i <= self.offsets.len(),
                points.len() == i,
                forall|j: int| 0 <= j < i ==> #[trigger] points[j] == self.spec_point(j),
            decreases self.offsets.len() - i,
        {
            let offset = self.offsets[i];
            let x = (self.x_center as isize + offset.x) as usize;
            let y = (self.y_center as isize + offset.y) as usize;
            points.push(Point { x, y });
            i += 1;
        }
        points
    }
}

/// When a rasterised circle of radius `r >= 1` lies at least `r` away from
/// the origin and from the top of the `isize` range, its pixel locations are
/// computed without overflow or wrapping, and each lies in the square of side
/// `2 * r` around the center.
pub proof fn lemma_circle_points_in_square(circle: Circle, r: int)
    requires
        r >= 1,
        offset_pairs(circle.offsets@) == circle_offsets(r),
        r <= circle.x_center <= isize::MAX - r,
        r <= circle.y_center <= isize::MAX - r,
    ensures
        circle.points_in_range(),
        forall|i: int|
            0 <= i < circle.offsets.len() ==> {
                &&& circle.x_center - r <= (#[trigger] circle.spec_point(i)).x <= circle.x_center + r
                &&& circle.y_center - r <= circle.spec_point(i).y <= circle.y_center + r
                &&& circle.spec_point(i).x == circle.x_center + circle.offsets[i].x
                &&& circle.spec_point(i).y == circle.y_center + circle.offsets[i].y
            },
{
    assert forall|i: int| 0 <= i < circle.offsets.len() implies {
        &&& -r <= #[trigger] circle.offsets[i].x <= r
        &&& -r <= circle.offsets[i].y <= r
    } by {
        let p = offset_pairs(circle.offsets@)[i];
        assert(circle_offsets(r).contains(p));
        lemma_circle_within_radius(r, p.0, p.1);
    }
}

/// Rasterises the circle of the given radius around the given center with
/// the midpoint (Bresenham) rule: the first-octant points are found by the
/// decision rule and mirrored into all eight octants. The radius is bounded so
/// that the decision value, which grows with about `14 * radius`, stays within `isize`.
pub fn circle_bresenham(x_center: usize, y_center: usize, radius: usize) -> (circle: Circle)
    requires
        radius <= isize::MAX / 16,
    ensures
        circle.x_center == x_center,
        circle.y_center == y_center,
        offset_pairs(circle.offsets@) == circle_offsets(radius as int),
{
    let ghost r = radius as int;
    let mut x: isize = 0;
    let mut y: isize = radius as isize;
    let mut d = 3 - 2 * radius as isize;

    let mut circle = Circle { x_center, y_center, offsets: Vec::<Offset>::new() };

    let mut first = bresenham_octant(x, y);
    circle.offsets.append(&mut first);
    let ghost mut pts: Seq<(int, int)> = seq![(0, r)];
    proof {
        assert(pts.drop_last() =~= Seq::<(int, int)>::empty());
        assert(images_of(Seq::<(int, int)>::empty()) =~= Seq::<(int, int)>::empty());
        assert(images_of(pts) =~= octant_images(0, r));
        assert(offset_pairs(circle.offsets@) =~= images_of(pts));
        lemma_decision_linear(0, r, r);
        assert(pts + arc_from(0, r, r) =~= arc(r));
        if r >= 1 {
            assert(on_arc(0, r, r));
        }
    }
    while y >= x
        invariant
            r == radius as int,
            radius <= isize::MAX / 16,
            circle.x_center == x_center,
            circle.y_center == y_center,
            d == decision(x as int, y as int, r),
            pts + arc_from(x as int, y as int, r) == arc(r),
            offset_pairs(circle.offsets@) == images_of(pts),
            r >= 1 ==> on_arc(x as int, y as int, r),
            r == 0 ==> (x == 0 && y == 0) || (x == 1 && y == -1),
        decreases y - x + 2,
    {
        let ghost (x_next, y_next) = next_point(x as int, y as int, r);
        proof {
            lemma_decision_step(x as int, y as int, r);
            lemma_decision_linear(x as int, y as int, r);
            if r >= 1 {
                lemma_step_on_arc(x as int, y as int, r);
                lemma_decision_linear(x_next, y_next, r);
            }
        }
        x += 1;
        if d > 0 {
            y -= 1;
            d = d + 4 * (x - y) + 10;
        } else {
            d = d + 4 * x + 6;
        }
        let mut images = bresenham_octant(x, y);
        circle.offsets.append(&mut images);
        proof {
            let old_pts = pts;
            pts = pts.push((x as int, y as int));
            assert(pts.drop_last() =~= old_pts);
        }
    }
    proof {
        assert(arc_from(x as int, y as int, r) =~= Seq::<(int, int)>::empty());
        assert(pts + arc_from(x as int, y as int, r) =~= pts);
    }
    circle
}

} // verus!
