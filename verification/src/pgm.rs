//! The optimal piecewise linear segmentation of the PGM index, on integers: a
//! streaming algorithm that keeps the convex hulls of the points shifted up
//! and down by `EPSILON`, and the rectangle of the extreme lines through them.
use vstd::prelude::*;
use crate::traits::StaticBounded;
use crate::pgm_fit::{fits_segment, lemma_fed_keeps, lemma_segmentation_fits, model_inv, segmentation_points};

verus! {

/// Keys that the segmentation takes lie between minus this bound and the
/// bound (every `i64` and `u64` key does), so that key differences and their
/// products with rank differences fit in an `i128`.
pub const KEY_LIMIT: i128 = 0x1_0000_0000_0000_0000;

/// Ranks (shifted by `EPSILON` included) that the segmentation takes are at
/// most this bound.
pub const RANK_LIMIT: i128 = 0x1000_0000_0000_0000;

/// A key-rank pair.
#[derive(Clone, Copy, Debug)]
pub struct Point<K> {
    pub x: K,
    pub y: usize,
}

/// The difference of two points, compared as slopes.
#[derive(Clone, Copy, Debug)]
pub struct Slope {
    pub dx: i128,
    pub dy: i128,
}

/// The point as a pair of integers.
pub open spec fn pt<K: StaticBounded>(p: Point<K>) -> (int, int) {
    (p.x.key_int(), p.y as int)
}

/// The point lies within the bounds.
pub open spec fn coord_ok<K: StaticBounded>(p: Point<K>) -> bool {
    -KEY_LIMIT <= p.x.key_int() <= KEY_LIMIT && p.y <= RANK_LIMIT
}

/// The difference `a - b` of two points.
pub open spec fn diff(a: (int, int), b: (int, int)) -> (int, int) {
    (a.0 - b.0, a.1 - b.1)
}

/// The slope of `a` is below the slope of `b` (both with positive run).
pub open spec fn slope_less(a: (int, int), b: (int, int)) -> bool {
    a.1 * b.0 < a.0 * b.1
}

/// `y - e`, or zero when that is negative.
pub open spec fn sat_sub(y: int, e: int) -> int {
    if y >= e { y - e } else { 0 }
}

/// A point `(x, y)` shifted up and down by `e` falls outside the band of the
/// rectangle `rect`: its upper point is below the line of smallest slope
/// (through corners 0 and 2), or its lower point is above the line of largest
/// slope (through corners 1 and 3).
pub open spec fn band_excludes(rect: Seq<(int, int)>, x: int, y: int, e: int) -> bool {
    let p1 = (x, y + e);
    let p2 = (x, sat_sub(y, e));
    let slope1 = diff(rect[2], rect[0]);
    let slope2 = diff(rect[3], rect[1]);
    slope_less(diff(p1, rect[2]), slope1) || slope_less(slope2, diff(p2, rect[3]))
}

/// A slope between two points within the bounds.
pub open spec fn slope_ok(s: Slope) -> bool {
    &&& -2 * KEY_LIMIT <= s.dx <= 2 * KEY_LIMIT
    &&& -RANK_LIMIT <= s.dy <= RANK_LIMIT
}

/// The cross product of `a - o` and `b - o`: positive when `o`, `a`, `b`
/// turn counter-clockwise.
pub open spec fn cross_int(o: (int, int), a: (int, int), b: (int, int)) -> int {
    diff(a, o).0 * diff(b, o).1 - diff(a, o).1 * diff(b, o).0
}

/// Scanning the slopes from the points of `hull` to `p` from position `i`
/// on: the first position after which the slope rises, or the last one.
pub open spec fn first_rise(hull: Seq<(int, int)>, p: (int, int), i: int) -> int
    decreases hull.len() - i,
{
    if 0 <= i && i + 1 < hull.len() && !slope_less(diff(hull[i], p), diff(hull[i + 1], p)) {
        first_rise(hull, p, i + 1)
    } else {
        i
    }
}

/// Scanning the slopes from the points of `hull` to `p` from position `i`
/// on: the first position after which the slope falls, or the last one.
pub open spec fn first_fall(hull: Seq<(int, int)>, p: (int, int), i: int) -> int
    decreases hull.len() - i,
{
    if 0 <= i && i + 1 < hull.len() && !slope_less(diff(hull[i + 1], p), diff(hull[i], p)) {
        first_fall(hull, p, i + 1)
    } else {
        i
    }
}

/// How much of `hull`, of which the first `e` points are looked at, stays
/// before `p` joins it: while at least two points from `start` on remain, the
/// last one goes when the last two and `p` do not turn the hull's way (for an
/// upper hull, when the cross product is at most zero; for a lower hull, at
/// least zero).
pub open spec fn hull_cut(hull: Seq<(int, int)>, start: int, p: (int, int), e: int, upper: bool) -> int
    decreases e,
{
    if 2 <= e <= hull.len() && e - start >= 2 && (if upper {
        cross_int(hull[e - 2], hull[e - 1], p) <= 0
    } else {
        cross_int(hull[e - 2], hull[e - 1], p) >= 0
    }) {
        hull_cut(hull, start, p, e - 1, upper)
    } else {
        e
    }
}

/// The state of a segmentation model as values: the points of its segment,
/// the corners of its rectangle, its lower and upper hulls, and where their
/// live parts begin.
pub type ModelState = (Seq<(int, int)>, Seq<(int, int)>, Seq<(int, int)>, Seq<(int, int)>, int, int);

/// The state of a new model: no point, all four corners at the origin, and
/// empty hulls.
pub open spec fn start_state() -> ModelState {
    (Seq::empty(), seq![(0int, 0int), (0int, 0int), (0int, 0int), (0int, 0int)], Seq::empty(), Seq::empty(), 0, 0)
}

/// Whether a model in state `st` takes the point `(x, y)` with error `e`: the
/// first and second points always, if their keys increase; a later one when
/// its key is above the last one and the point, shifted up and down by `e`,
/// stays within the band of the rectangle.
pub open spec fn takes(st: ModelState, x: int, y: int, e: int) -> bool {
    let ps = st.0;
    let n = ps.len();
    if n == 0 {
        true
    } else if x <= ps[n - 1].0 {
        false
    } else if n == 1 {
        true
    } else {
        !band_excludes(st.1, x, y, e)
    }
}

/// The state of a model in state `st` after it was given the point `(x, y)`
/// with error `e`. A key not above the last one changes nothing; a point
/// outside the band empties the segment. The first point sets corners 0 and
/// 1 to its upper and lower points and starts both hulls; the second sets
/// corners 2 and 3 and joins both hulls. A later point that is taken joins
/// the segment; when its upper point is below the line of largest slope,
/// corner 3 becomes that point, corner 1 the lower hull point, scanned from
/// the hull's start, after which the slope to it rises (the start moves
/// there), and the point joins the upper hull after the points it hides;
/// then, when its lower point is above the line of smallest slope, corner 2
/// becomes that point, corner 0 the upper hull point after which the slope
/// to it falls, and the point joins the lower hull in the same way.
pub open spec fn fed(st: ModelState, x: int, y: int, e: int) -> ModelState {
    let ps = st.0;
    let r = st.1;
    let lo = st.2;
    let up = st.3;
    let ls = st.4;
    let us = st.5;
    let n = ps.len();
    let p1 = (x, y + e);
    let p2 = (x, sat_sub(y, e));
    if n == 0 {
        (seq![(x, y)], r.update(0, p1).update(1, p2), seq![p2], seq![p1], 0, 0)
    } else if x <= ps[n - 1].0 {
        st
    } else if n == 1 {
        (ps.push((x, y)), r.update(2, p2).update(3, p1), lo.push(p2), up.push(p1), ls, us)
    } else if band_excludes(r, x, y, e) {
        (Seq::empty(), r, lo, up, ls, us)
    } else {
        let c1 = slope_less(diff(p1, r[1]), diff(r[3], r[1]));
        let c2 = slope_less(diff(r[2], r[0]), diff(p2, r[0]));
        let m1 = first_rise(lo, p1, ls);
        let ls1 = if c1 { m1 } else { ls };
        let up1 = if c1 {
            up.subrange(0, hull_cut(up, us, p1, up.len() as int, true)).push(p1)
        } else {
            up
        };
        let m0 = first_fall(up1, p2, us);
        let lo1 = if c2 {
            lo.subrange(0, hull_cut(lo, ls1, p2, lo.len() as int, false)).push(p2)
        } else {
            lo
        };
        let r1 = r.update(0, if c2 { up1[m0] } else { r[0] }).update(1, if c1 { lo[m1] } else { r[1] }).update(
            2,
            if c2 { p2 } else { r[2] },
        ).update(3, if c1 { p1 } else { r[3] });
        (ps.push((x, y)), r1, lo1, up1, ls1, if c2 { m0 } else { us })
    }
}

/// The corners of the segment that a model in state `st` gives: for a single
/// point its upper and lower points, twice; else its rectangle.
pub open spec fn segment_corners(st: ModelState) -> Seq<(int, int)> {
    if st.0.len() == 1 {
        seq![st.1[0], st.1[1], st.1[0], st.1[1]]
    } else {
        st.1
    }
}

proof fn lemma_product_bound(a: int, b: int)
    by (nonlinear_arith)
    requires
        -2 * KEY_LIMIT <= a <= 2 * KEY_LIMIT,
        -RANK_LIMIT <= b <= RANK_LIMIT,
    ensures
        -2 * KEY_LIMIT * RANK_LIMIT <= a * b <= 2 * KEY_LIMIT * RANK_LIMIT,
{
}

/// The difference `a - b` of two points, as a slope.
pub fn sub_points<K: StaticBounded>(a: Point<K>, b: Point<K>) -> (r: Slope)
    requires
        coord_ok(a),
        coord_ok(b),
    ensures
        (r.dx as int, r.dy as int) == diff(pt(a), pt(b)),
        slope_ok(r),
{
    Slope { dx: a.x.key_to_i128() - b.x.key_to_i128(), dy: a.y as i128 - b.y as i128 }
}

/// Whether slope `a` is below slope `b`.
pub fn slope_lt(a: Slope, b: Slope) -> (r: bool)
    requires
        slope_ok(a),
        slope_ok(b),
    ensures
        r == slope_less((a.dx as int, a.dy as int), (b.dx as int, b.dy as int)),
{
    proof {
        lemma_product_bound(b.dx as int, a.dy as int);
        lemma_product_bound(a.dx as int, b.dy as int);
        assert(b.dx * a.dy == a.dy * b.dx) by (nonlinear_arith);
        assert(a.dx * b.dy == b.dy * a.dx) by (nonlinear_arith);
    }
    a.dy * b.dx < a.dx * b.dy
}

/// The cross product of `a - o` and `b - o`: positive when `o`, `a`, `b` turn
/// counter-clockwise.
pub fn cross<K: StaticBounded>(o: Point<K>, a: Point<K>, b: Point<K>) -> (r: i128)
    requires
        coord_ok(o),
        coord_ok(a),
        coord_ok(b),
    ensures
        r == diff(pt(a), pt(o)).0 * diff(pt(b), pt(o)).1 - diff(pt(a), pt(o)).1 * diff(pt(b), pt(o)).0,
{
    let oa = sub_points(a, o);
    let ob = sub_points(b, o);
    proof {
        lemma_product_bound(oa.dx as int, ob.dy as int);
        lemma_product_bound(ob.dx as int, oa.dy as int);
        assert(ob.dx * oa.dy == oa.dy * ob.dx) by (nonlinear_arith);
    }
    oa.dx * ob.dy - oa.dy * ob.dx
}

/// The rectangle of the extreme lines of a segment, and its first key.
#[derive(Clone, Copy, Debug)]
pub struct CanonicalSegment<K> {
    pub rectangle: [Point<K>; 4],
    pub first: K,
}

impl<K: StaticBounded> CanonicalSegment<K> {
    /// A segment of one point: the rectangle is the point's lower and upper
    /// shifts, twice.
    pub fn diagonal(p0: Point<K>, p1: Point<K>, first: K) -> (r: Self)
        ensures
            r.rectangle@ == seq![p0, p1, p0, p1],
            r.first == first,
    {
        Self { rectangle: [p0, p1, p0, p1], first }
    }

    /// A segment with the given rectangle.
    pub fn new(rectangle: [Point<K>; 4], first: K) -> (r: Self)
        ensures
            r.rectangle == rectangle,
            r.first == first,
    {
        Self { rectangle, first }
    }

    /// Whether the rectangle is a single point's: corners 0 and 2, and corners
    /// 1 and 3, coincide.
    pub fn one_point(&self) -> (r: bool)
        ensures
            r == (pt(self.rectangle@[0]) == pt(self.rectangle@[2]) && pt(self.rectangle@[1]) == pt(
                self.rectangle@[3],
            )),
    {
        let r0 = self.rectangle[0];
        let r1 = self.rectangle[1];
        let r2 = self.rectangle[2];
        let r3 = self.rectangle[3];
        r0.x.key_eq(&r2.x) && r0.y == r2.y && r1.x.key_eq(&r3.x) && r1.y == r3.y
    }
}


/// Division rounding toward zero, as the machine divides.
pub open spec fn trunc_div(a: int, b: int) -> int {
    let q = abs_int(a) / abs_int(b);
    if (a >= 0) == (b >= 0) { q } else { -q }
}

/// The absolute value.
pub open spec fn abs_int(a: int) -> int {
    if a >= 0 { a } else { -a }
}

/// Divides rounding toward zero.
fn div_toward_zero(a: i128, b: i128) -> (r: i128)
    requires
        b != 0,
        -0x4000_0000_0000_0000_0000_0000_0000_0000 < a < 0x4000_0000_0000_0000_0000_0000_0000_0000,
        -0x4000_0000_0000_0000_0000_0000_0000_0000 < b < 0x4000_0000_0000_0000_0000_0000_0000_0000,
    ensures
        r == trunc_div(a as int, b as int),
{
    let ua = if a >= 0 { a } else { -a };
    let ub = if b >= 0 { b } else { -b };
    let q = ua / ub;
    if (a >= 0) == (b >= 0) {
        q
    } else {
        -q
    }
}

/// The intercept at `origin` of the line of largest slope of a segment's
/// rectangle (through corners 1 and 3), rounded to the nearest integer (halves
/// away from zero); for a single point's rectangle, the middle of the point's
/// two shifts.
pub open spec fn segment_intercept(rect: Seq<(int, int)>, origin: int) -> int {
    if rect[0] == rect[2] && rect[1] == rect[3] {
        (rect[0].1 + rect[1].1) / 2
    } else {
        let n = (rect[3].1 - rect[1].1) * (origin - rect[1].0);
        let d = rect[3].0 - rect[1].0;
        let rounding = trunc_div(if (n < 0) != (d < 0) { -d } else { d }, 2);
        trunc_div(n + rounding, d) + rect[1].1
    }
}

impl<K: StaticBounded> CanonicalSegment<K> {
    /// The corners of the rectangle, as pairs of integers.
    pub open spec fn rect(&self) -> Seq<(int, int)> {
        self.rectangle@.map_values(|p: Point<K>| pt(p))
    }

    /// The integer part of the segment's linear model: the intercept at
    /// `origin` of the line of largest slope, rounded to the nearest integer.
    pub fn intercept(&self, origin: K) -> (r: i128)
        requires
            forall|i: int| 0 <= i < 4 ==> coord_ok(#[trigger] self.rectangle@[i]),
            -KEY_LIMIT <= origin.key_int() <= KEY_LIMIT,
            K::min_key().key_int() <= origin.key_int() - self.rectangle@[1].x.key_int() <= K::max_key().key_int(),
            !self.one_point_spec() ==> self.rectangle@[3].x.key_int() != self.rectangle@[1].x.key_int(),
        ensures
            r == segment_intercept(self.rect(), origin.key_int()),
    {
        let r0 = self.rectangle[0];
        let r1 = self.rectangle[1];
        let r3 = self.rectangle[3];
        proof {
            assert(coord_ok(self.rectangle@[0]) && coord_ok(self.rectangle@[1]) && coord_ok(self.rectangle@[2])
                && coord_ok(self.rectangle@[3]));
            assert(self.rect()[0] == pt(r0) && self.rect()[1] == pt(r1) && self.rect()[2] == pt(self.rectangle@[2])
                && self.rect()[3] == pt(r3));
        }
        if self.one_point() {
            return (r0.y as i128 + r1.y as i128) / 2;
        }
        let slope = sub_points(r3, r1);
        let dx = origin.key_to_i128() - r1.x.key_to_i128();
        proof {
            lemma_product_bound(dx as int, slope.dy as int);
            assert(slope.dy * dx == dx * slope.dy) by (nonlinear_arith);
        }
        let n = slope.dy * dx;
        let d = slope.dx;
        let signed = if (n < 0) != (d < 0) { -d } else { d };
        let rounding = div_toward_zero(signed, 2);
        div_toward_zero(n + rounding, d) + r1.y as i128
    }

    /// The rectangle is a single point's.
    pub open spec fn one_point_spec(&self) -> bool {
        pt(self.rectangle@[0]) == pt(self.rectangle@[2]) && pt(self.rectangle@[1]) == pt(self.rectangle@[3])
    }
}

/// The streaming state of the optimal segmentation of one segment.
pub struct OptimalPiecewiseLinearModel<K, const EPSILON: usize> {
    lower: Vec<Point<K>>,
    upper: Vec<Point<K>>,
    first_x: K,
    last_x: K,
    lower_start: usize,
    upper_start: usize,
    points_in_hull: usize,
    rectangle: [Point<K>; 4],
    pts: Ghost<Seq<(int, int)>>,
}

impl<K: StaticBounded, const EPSILON: usize> OptimalPiecewiseLinearModel<K, EPSILON> {
    /// The points of the current segment, in the order they were added.
    pub closed spec fn points(&self) -> Seq<(int, int)> {
        self.pts@
    }

    /// The corner points of the rectangle.
    pub closed spec fn corners(&self) -> Seq<Point<K>> {
        self.rectangle@
    }

    /// The corners of the rectangle, as pairs of integers.
    pub closed spec fn rect(&self) -> Seq<(int, int)> {
        self.rectangle@.map_values(|p: Point<K>| pt(p))
    }

    /// The points of the lower hull.
    pub closed spec fn lower_hull(&self) -> Seq<(int, int)> {
        self.lower@.map_values(|q: Point<K>| pt(q))
    }

    /// The points of the upper hull.
    pub closed spec fn upper_hull(&self) -> Seq<(int, int)> {
        self.upper@.map_values(|q: Point<K>| pt(q))
    }

    /// Where the lower hull's live part starts.
    pub closed spec fn lower_begin(&self) -> int {
        self.lower_start as int
    }

    /// Where the upper hull's live part starts.
    pub closed spec fn upper_begin(&self) -> int {
        self.upper_start as int
    }

    /// `new` is `old` after a point with upper point `p1` and lower point
    /// `p2` entered the segment, corners 2 and 3 aside. When `p1` is below the
    /// line of largest slope, corner 1 becomes the lower hull point, scanned
    /// from the hull's start, after which the slope to `p1` rises; the start
    /// moves there; and `p1` joins the upper hull after the points it hides.
    /// Then, when `p2` is above the line of smallest slope, corner 0 becomes
    /// the upper hull point after which the slope to `p2` falls, the upper
    /// start moves there, and `p2` joins the lower hull in the same way.
    spec fn advanced(old: &Self, new: &Self, p1: (int, int), p2: (int, int)) -> bool {
        let r = old.rect();
        let c1 = slope_less(diff(p1, r[1]), diff(r[3], r[1]));
        let c2 = slope_less(diff(r[2], r[0]), diff(p2, r[0]));
        let lo0 = old.lower_hull();
        let up0 = old.upper_hull();
        let m1 = first_rise(lo0, p1, old.lower_begin());
        let ls1 = if c1 { m1 } else { old.lower_begin() };
        let up1 = if c1 {
            up0.subrange(0, hull_cut(up0, old.upper_begin(), p1, up0.len() as int, true)).push(p1)
        } else {
            up0
        };
        let m0 = first_fall(up1, p2, old.upper_begin());
        let lo1 = if c2 {
            lo0.subrange(0, hull_cut(lo0, ls1, p2, lo0.len() as int, false)).push(p2)
        } else {
            lo0
        };
        &&& new.rect()[1] == (if c1 { lo0[m1] } else { r[1] })
        &&& new.rect()[0] == (if c2 { up1[m0] } else { r[0] })
        &&& new.lower_begin() == ls1
        &&& new.upper_begin() == (if c2 { m0 } else { old.upper_begin() })
        &&& new.upper_hull() == up1
        &&& new.lower_hull() == lo1
    }

    /// The points of the model are the first part of its state.
    pub proof fn lemma_points_state(&self)
        ensures
            self.points() == self.state().0,
    {
    }

    /// The state of the model as values.
    pub closed spec fn state(&self) -> ModelState {
        (self.pts@, self.rect(), self.lower_hull(), self.upper_hull(), self.lower_start as int, self.upper_start as int)
    }

    /// The rectangle has four corners.
    pub proof fn lemma_rect_len(&self)
        ensures
            self.rect().len() == 4,
    {
    }

    /// The first key of the current segment.
    pub closed spec fn first_key(&self) -> K {
        self.first_x
    }

    /// The state is consistent: one point per accepted pair, keys increasing,
    /// every stored point within the bounds, and the hull starts within the
    /// hulls.
    pub closed spec fn wf(&self) -> bool {
        let n = self.pts@.len();
        &&& self.points_in_hull == n
        &&& forall|i: int, j: int| 0 <= i < j < n ==> self.pts@[i].0 < self.pts@[j].0
        &&& forall|i: int| 0 <= i < self.lower@.len() ==> coord_ok(#[trigger] self.lower@[i])
        &&& forall|i: int| 0 <= i < self.upper@.len() ==> coord_ok(#[trigger] self.upper@[i])
        &&& n >= 1 ==> {
            &&& self.lower_start < self.lower@.len()
            &&& self.upper_start < self.upper@.len()
            &&& self.first_x.key_int() == self.pts@[0].0
            &&& self.last_x.key_int() == self.pts@[n - 1].0
            &&& coord_ok(self.rectangle@[0])
            &&& coord_ok(self.rectangle@[1])
        }
        &&& n >= 2 ==> coord_ok(self.rectangle@[2]) && coord_ok(self.rectangle@[3])
    }

    /// A model with no point yet.
    pub fn new() -> (r: Self)
        ensures
            r.wf(),
            r.points() == Seq::<(int, int)>::empty(),
            r.first_key() == K::min_key(),
            r.state() == start_state(),
            r.points() == r.state().0,
            model_inv(r.state(), EPSILON as int),
    {
        let origin = Point { x: K::zero(), y: 0 };
        let r = Self {
            lower: Vec::new(),
            upper: Vec::new(),
            first_x: K::min_ref(),
            last_x: K::min_ref(),
            lower_start: 0,
            upper_start: 0,
            points_in_hull: 0,
            rectangle: [origin, origin, origin, origin],
            pts: Ghost(Seq::empty()),
        };
        proof {
            assert(r.rect() =~= seq![(0int, 0int), (0int, 0int), (0int, 0int), (0int, 0int)]);
            assert(r.lower_hull() =~= Seq::<(int, int)>::empty());
            assert(r.upper_hull() =~= Seq::<(int, int)>::empty());
        }
        r
    }

    /// Adds the next key-rank pair to the segment: returns whether the model
    /// takes it, and moves to the state that the model is in once given it
    /// (see `takes` and `fed`). A key not above the last one is refused and
    /// changes nothing; a point whose upper point falls below the line
    /// through corners 0 and 2, or whose lower point rises above the line
    /// through corners 1 and 3, is refused and empties the segment; any other
    /// point is taken. A consistent state stays consistent, so the points of
    /// the segment stay within `EPSILON` ranks of its line through corners 1
    /// and 3 (see `model_inv` and `lemma_model_fits`).
    pub fn add_point(&mut self, pair: (K, usize)) -> (r: bool)
        requires
            old(self).wf(),
            (old(self).points().len() == 0 || pair.0.key_int() > old(self).points().last().0) ==> {
                &&& -KEY_LIMIT <= pair.0.key_int() <= KEY_LIMIT
                &&& pair.1 + EPSILON <= RANK_LIMIT
                &&& pair.1 + EPSILON <= usize::MAX
                &&& old(self).points().len() < usize::MAX
            },
        ensures
            final(self).wf(),
            r == takes(old(self).state(), pair.0.key_int(), pair.1 as int, EPSILON as int),
            final(self).state() == fed(old(self).state(), pair.0.key_int(), pair.1 as int, EPSILON as int),
            final(self).points() == final(self).state().0,
            r ==> final(self).first_key() == (if old(self).points().len() == 0 { pair.0 } else { old(self).first_key() }),
            !r ==> final(self).first_key() == old(self).first_key(),
            model_inv(old(self).state(), EPSILON as int) ==> model_inv(final(self).state(), EPSILON as int),
    {
        let r = self.add_point_steps(pair);
        proof {
            if model_inv(old(self).state(), EPSILON as int) {
                lemma_fed_keeps(old(self).state(), pair.0.key_int(), pair.1 as int, EPSILON as int);
            }
            let x = pair.0.key_int();
            let y = pair.1 as int;
            let e = EPSILON as int;
            let st = old(self).state();
            let n = st.0.len();
            old(self).lemma_rect_len();
            self.lemma_rect_len();
            if n >= 2 && x > st.0[n - 1].0 && r {
                let f = fed(st, x, y, e);
                assert(self.rect() =~= f.1);
            }
            if n == 0 {
                assert(self.state().0 =~= fed(st, x, y, e).0);
            }
        }
        r
    }

    /// Adds the next key-rank pair to the segment. Returns `false`, and leaves
    /// the model unchanged, when the key is not above the last one; returns
    /// `false`, and empties the model, when the point falls outside the band
    /// of the rectangle; returns `true` and adds the point otherwise.
    fn add_point_steps(&mut self, pair: (K, usize)) -> (r: bool)
        requires
            old(self).wf(),
            (old(self).points().len() == 0 || pair.0.key_int() > old(self).points().last().0) ==> {
                &&& -KEY_LIMIT <= pair.0.key_int() <= KEY_LIMIT
                &&& pair.1 + EPSILON <= RANK_LIMIT
                &&& pair.1 + EPSILON <= usize::MAX
                &&& old(self).points().len() < usize::MAX
            },
        ensures
            final(self).wf(),
            ({
                let x = pair.0.key_int();
                let y = pair.1 as int;
                let e = EPSILON as int;
                let ps = old(self).points();
                let n = ps.len();
                &&& n > 0 && x <= ps[n - 1].0 ==> !r && *final(self) == *old(self)
                &&& n == 0 ==> {
                    &&& r
                    &&& final(self).points() == seq![(x, y)]
                    &&& final(self).first_key() == pair.0
                    &&& final(self).rect() == old(self).rect().update(0, (x, y + e)).update(1, (x, sat_sub(y, e)))
                    &&& final(self).upper_hull() == seq![(x, y + e)]
                    &&& final(self).lower_hull() == seq![(x, sat_sub(y, e))]
                    &&& final(self).upper_begin() == 0
                    &&& final(self).lower_begin() == 0
                }
                &&& n == 1 && x > ps[0].0 ==> {
                    &&& r
                    &&& final(self).points() == ps.push((x, y))
                    &&& final(self).rect() == old(self).rect().update(2, (x, sat_sub(y, e))).update(3, (x, y + e))
                    &&& final(self).upper_hull() == old(self).upper_hull().push((x, y + e))
                    &&& final(self).lower_hull() == old(self).lower_hull().push((x, sat_sub(y, e)))
                    &&& final(self).upper_begin() == old(self).upper_begin()
                    &&& final(self).lower_begin() == old(self).lower_begin()
                }
                &&& n >= 2 && x > ps[n - 1].0 ==> {
                    &&& r == !band_excludes(old(self).rect(), x, y, e)
                    &&& r ==> final(self).points() == ps.push((x, y))
                    &&& !r ==> final(self).points() == Seq::<(int, int)>::empty()
                    &&& !r ==> final(self).rect() == old(self).rect() && final(self).lower_hull() == old(self).lower_hull()
                        && final(self).upper_hull() == old(self).upper_hull() && final(self).lower_begin()
                        == old(self).lower_begin() && final(self).upper_begin() == old(self).upper_begin()
                    &&& r ==> Self::advanced(old(self), final(self), (x, y + e), (x, sat_sub(y, e)))
                    &&& r ==> final(self).rect()[3] == (if slope_less(
                        diff((x, y + e), old(self).rect()[1]),
                        diff(old(self).rect()[3], old(self).rect()[1]),
                    ) {
                        (x, y + e)
                    } else {
                        old(self).rect()[3]
                    })
                    &&& r ==> final(self).rect()[2] == (if slope_less(
                        diff(old(self).rect()[2], old(self).rect()[0]),
                        diff((x, sat_sub(y, e)), old(self).rect()[0]),
                    ) {
                        (x, sat_sub(y, e))
                    } else {
                        old(self).rect()[2]
                    })
                }
                &&& r ==> final(self).first_key() == (if n == 0 { pair.0 } else { old(self).first_key() })
                &&& !r ==> final(self).first_key() == old(self).first_key()
            }),
    {
        let x = pair.0;
        let y = pair.1;
        let ghost gx = x.key_int();
        let ghost gy = y as int;
        if self.points_in_hull > 0 && x.key_le(&self.last_x) {
            return false;
        }
        self.last_x = x;
        let p1 = Point { x, y: y + EPSILON };
        let p2 = Point { x, y: if y >= EPSILON { y - EPSILON } else { 0 } };
        if self.points_in_hull == 0 {
            self.first_x = x;
            self.rectangle[0] = p1;
            self.rectangle[1] = p2;
            self.upper = Vec::new();
            self.lower = Vec::new();
            self.upper.push(p1);
            self.lower.push(p2);
            self.upper_start = 0;
            self.lower_start = 0;
            self.points_in_hull = 1;
            let ghost one = seq![(gx, gy)];
            self.pts = Ghost(one);
            return true;
        }
        if self.points_in_hull == 1 {
            self.rectangle[2] = p2;
            self.rectangle[3] = p1;
            self.upper.push(p1);
            self.lower.push(p2);
            self.points_in_hull = 2;
            let ghost more = self.pts@.push((gx, gy));
            self.pts = Ghost(more);
            proof {
                assert(self.rect() =~= old(self).rect().update(2, (gx, sat_sub(gy, EPSILON as int))).update(3, (gx, gy + EPSILON)));
            }
            return true;
        }
        let slope1 = sub_points(self.rectangle[2], self.rectangle[0]);
        let slope2 = sub_points(self.rectangle[3], self.rectangle[1]);
        let outside_line1 = slope_lt(sub_points(p1, self.rectangle[2]), slope1);
        let outside_line2 = slope_lt(slope2, sub_points(p2, self.rectangle[3]));
        proof {
            assert(self.rect()[0] == pt(self.rectangle@[0]));
            assert(self.rect()[1] == pt(self.rectangle@[1]));
            assert(self.rect()[2] == pt(self.rectangle@[2]));
            assert(self.rect()[3] == pt(self.rectangle@[3]));
        }
        if outside_line1 || outside_line2 {
            self.points_in_hull = 0;
            let ghost none = Seq::<(int, int)>::empty();
            self.pts = Ghost(none);
            return false;
        }
        let ghost mid0 = *self;
        if slope_lt(sub_points(p1, self.rectangle[1]), slope2) {
            self.lower_extreme(p1);
            proof {
                assert(self.upper_hull() =~= mid0.upper_hull().subrange(
                    0,
                    hull_cut(mid0.upper_hull(), mid0.upper_start as int, pt(p1), mid0.upper@.len() as int, true),
                ).push(pt(p1)));
            }
        }
        let ghost mid1 = *self;
        if slope_lt(slope1, sub_points(p2, self.rectangle[0])) {
            self.upper_extreme(p2);
            proof {
                assert(self.lower_hull() =~= mid1.lower_hull().subrange(
                    0,
                    hull_cut(mid1.lower_hull(), mid1.lower_start as int, pt(p2), mid1.lower@.len() as int, false),
                ).push(pt(p2)));
            }
        }
        self.points_in_hull = self.points_in_hull + 1;
        let ghost more = self.pts@.push((gx, gy));
        self.pts = Ghost(more);
        proof {
            assert(mid0.rect()[1] == pt(mid0.rectangle@[1]));
            assert(mid1.rect()[0] == pt(mid1.rectangle@[0]));
            assert(self.rect()[0] == pt(self.rectangle@[0]));
            assert(self.rect()[1] == pt(self.rectangle@[1]));
        }
        true
    }

    /// A new upper point below the line of largest slope: the lower hull point
    /// with the smallest slope to it becomes corner 1, the point corner 3, and
    /// the point joins the upper hull.
    fn lower_extreme(&mut self, p1: Point<K>)
        requires
            old(self).lower_start < old(self).lower@.len(),
            old(self).upper_start < old(self).upper@.len(),
            forall|i: int| 0 <= i < old(self).upper@.len() ==> coord_ok(#[trigger] old(self).upper@[i]),
            forall|i: int| 0 <= i < old(self).lower@.len() ==> coord_ok(#[trigger] old(self).lower@[i]),
            coord_ok(p1),
        ensures
            final(self).lower@ == old(self).lower@,
            final(self).upper@.len() >= 1,
            final(self).upper_start == old(self).upper_start,
            final(self).upper_start < final(self).upper@.len(),
            forall|i: int| 0 <= i < final(self).upper@.len() ==> coord_ok(#[trigger] final(self).upper@[i]),
            final(self).lower_start < final(self).lower@.len(),
            final(self).rectangle@ == old(self).rectangle@.update(1, final(self).rectangle@[1]).update(3, p1),
            coord_ok(final(self).rectangle@[1]),
            final(self).lower_start == first_rise(old(self).lower_hull(), pt(p1), old(self).lower_start as int),
            final(self).rectangle@[1] == old(self).lower@[final(self).lower_start as int],
            0 <= hull_cut(old(self).upper_hull(), old(self).upper_start as int, pt(p1), old(self).upper@.len() as int, true)
                <= old(self).upper@.len(),
            final(self).upper@ == old(self).upper@.subrange(
                0,
                hull_cut(old(self).upper_hull(), old(self).upper_start as int, pt(p1), old(self).upper@.len() as int, true),
            ).push(p1),
            final(self).first_x == old(self).first_x,
            final(self).last_x == old(self).last_x,
            final(self).points_in_hull == old(self).points_in_hull,
            final(self).pts == old(self).pts,
    {
        // Find extreme slope
        let ghost lh = self.lower_hull();
        let ghost pp = pt(p1);
        let ghost ls = self.lower_start as int;
        let mut min = sub_points(self.lower[self.lower_start], p1);
        let mut min_i = self.lower_start;
        let len = self.lower.len();
        let mut i = self.lower_start + 1;
        while i < len
            invariant
                len == self.lower@.len(),
                forall|j: int| 0 <= j < self.lower@.len() ==> coord_ok(#[trigger] self.lower@[j]),
                self.lower_start <= min_i < i <= self.lower@.len(),
                min_i + 1 == i,
                slope_ok(min),
                coord_ok(p1),
                lh == self.lower_hull(),
                pp == pt(p1),
                ls == self.lower_start,
                (min.dx as int, min.dy as int) == diff(lh[min_i as int], pp),
                first_rise(lh, pp, ls) == first_rise(lh, pp, min_i as int),
            ensures
                self.lower_start <= min_i < self.lower@.len(),
                first_rise(lh, pp, ls) == min_i,
            decreases self.lower@.len() - i,
        {
            let val = sub_points(self.lower[i], p1);
            proof {
                assert(lh[i as int] == pt(self.lower@[i as int]));
            }
            if slope_lt(min, val) {
                break;
            }
            min = val;
            min_i = i;
            i += 1;
        }
        self.rectangle[1] = self.lower[min_i];
        self.rectangle[3] = p1;
        self.lower_start = min_i;
        // Hull update
        let ghost uh = self.upper_hull();
        let ghost us = self.upper_start as int;
        let mut end = self.upper.len();
        while end - self.upper_start >= 2 && cross(self.upper[end - 2], self.upper[end - 1], p1) <= 0
            invariant
                self.upper_start + 1 <= end <= self.upper@.len(),
                forall|i: int| 0 <= i < self.upper@.len() ==> coord_ok(#[trigger] self.upper@[i]),
                coord_ok(p1),
                uh == self.upper_hull(),
                us == self.upper_start,
                pp == pt(p1),
                hull_cut(uh, us, pp, self.upper@.len() as int, true) == hull_cut(uh, us, pp, end as int, true),
            decreases end,
        {
            proof {
                assert(uh[end - 2] == pt(self.upper@[end - 2]));
                assert(uh[end - 1] == pt(self.upper@[end - 1]));
            }
            end -= 1;
        }
        proof {
            if end - us >= 2 {
                assert(uh[end - 2] == pt(self.upper@[end - 2]));
                assert(uh[end - 1] == pt(self.upper@[end - 1]));
            }
        }
        self.upper.truncate(end);
        self.upper.push(p1);
    }

    /// A new lower point above the line of smallest slope: the upper hull point
    /// with the largest slope to it becomes corner 0, the point corner 2, and
    /// the point joins the lower hull.
    fn upper_extreme(&mut self, p2: Point<K>)
        requires
            old(self).upper@.len() >= 1,
            old(self).upper_start < old(self).upper@.len(),
            old(self).lower_start < old(self).lower@.len(),
            forall|i: int| 0 <= i < old(self).upper@.len() ==> coord_ok(#[trigger] old(self).upper@[i]),
            forall|i: int| 0 <= i < old(self).lower@.len() ==> coord_ok(#[trigger] old(self).lower@[i]),
            coord_ok(p2),
        ensures
            final(self).upper@ == old(self).upper@,
            final(self).upper_start < final(self).upper@.len(),
            final(self).lower_start == old(self).lower_start,
            final(self).lower_start < final(self).lower@.len(),
            forall|i: int| 0 <= i < final(self).lower@.len() ==> coord_ok(#[trigger] final(self).lower@[i]),
            final(self).rectangle@ == old(self).rectangle@.update(0, final(self).rectangle@[0]).update(2, p2),
            coord_ok(final(self).rectangle@[0]),
            final(self).upper_start == first_fall(old(self).upper_hull(), pt(p2), old(self).upper_start as int),
            final(self).rectangle@[0] == old(self).upper@[final(self).upper_start as int],
            0 <= hull_cut(old(self).lower_hull(), old(self).lower_start as int, pt(p2), old(self).lower@.len() as int, false)
                <= old(self).lower@.len(),
            final(self).lower@ == old(self).lower@.subrange(
                0,
                hull_cut(old(self).lower_hull(), old(self).lower_start as int, pt(p2), old(self).lower@.len() as int, false),
            ).push(p2),
            final(self).first_x == old(self).first_x,
            final(self).last_x == old(self).last_x,
            final(self).points_in_hull == old(self).points_in_hull,
            final(self).pts == old(self).pts,
    {
        // Find extreme slope
        let ghost uh = self.upper_hull();
        let ghost pp = pt(p2);
        let ghost us = self.upper_start as int;
        let mut max = sub_points(self.upper[self.upper_start], p2);
        let mut max_i = self.upper_start;
        let len = self.upper.len();
        let mut i = self.upper_start + 1;
        while i < len
            invariant
                len == self.upper@.len(),
                self.upper_start <= max_i < i <= self.upper@.len(),
                max_i + 1 == i,
                forall|j: int| 0 <= j < self.upper@.len() ==> coord_ok(#[trigger] self.upper@[j]),
                slope_ok(max),
                coord_ok(p2),
                uh == self.upper_hull(),
                pp == pt(p2),
                us == self.upper_start,
                (max.dx as int, max.dy as int) == diff(uh[max_i as int], pp),
                first_fall(uh, pp, us) == first_fall(uh, pp, max_i as int),
            ensures
                self.upper_start <= max_i < self.upper@.len(),
                first_fall(uh, pp, us) == max_i,
            decreases self.upper@.len() - i,
        {
            let val = sub_points(self.upper[i], p2);
            proof {
                assert(uh[i as int] == pt(self.upper@[i as int]));
            }
            if slope_lt(val, max) {
                break;
            }
            max = val;
            max_i = i;
            i += 1;
        }
        self.rectangle[0] = self.upper[max_i];
        self.rectangle[2] = p2;
        self.upper_start = max_i;
        // Hull update
        let ghost lh = self.lower_hull();
        let ghost ls = self.lower_start as int;
        let mut end = self.lower.len();
        while end - self.lower_start >= 2 && cross(self.lower[end - 2], self.lower[end - 1], p2) >= 0
            invariant
                self.lower_start + 1 <= end <= self.lower@.len(),
                forall|j: int| 0 <= j < self.lower@.len() ==> coord_ok(#[trigger] self.lower@[j]),
                coord_ok(p2),
                lh == self.lower_hull(),
                ls == self.lower_start,
                pp == pt(p2),
                hull_cut(lh, ls, pp, self.lower@.len() as int, false) == hull_cut(lh, ls, pp, end as int, false),
            decreases end,
        {
            proof {
                assert(lh[end - 2] == pt(self.lower@[end - 2]));
                assert(lh[end - 1] == pt(self.lower@[end - 1]));
            }
            end -= 1;
        }
        proof {
            if end - ls >= 2 {
                assert(lh[end - 2] == pt(self.lower@[end - 2]));
                assert(lh[end - 1] == pt(self.lower@[end - 1]));
            }
        }
        self.lower.truncate(end);
        self.lower.push(p2);
    }

    /// The segment found so far: a diagonal one for a single point, else one
    /// with the current rectangle.
    pub fn get_segment(&self) -> (r: CanonicalSegment<K>)
        requires
            self.wf(),
        ensures
            r.first == self.first_key(),
            self.points().len() == 1 ==> r.rectangle@ == seq![
                self.corners()[0],
                self.corners()[1],
                self.corners()[0],
                self.corners()[1],
            ],
            self.points().len() != 1 ==> r.rectangle@ == self.corners(),
            r.rect() == segment_corners(self.state()),
    {
        if self.points_in_hull == 1 {
            let r = CanonicalSegment::diagonal(self.rectangle[0], self.rectangle[1], self.first_x);
            proof {
                assert(r.rect() =~= segment_corners(self.state()));
            }
            return r;
        }
        let r = CanonicalSegment::new(self.rectangle, self.first_x);
        proof {
            assert(r.rect() =~= segment_corners(self.state()));
        }
        r
    }
}


/// The optimal linear segmentation of the PGM index.
pub struct PGMSegmentation;

/// Point `i` ends a run of equal keys, and the next key differs.
pub open spec fn run_end<K: StaticBounded>(kr: Seq<(K, usize)>, i: int) -> bool {
    i > 0 && i + 1 < kr.len() && kr[i].0.key_int() == kr[i - 1].0.key_int() && kr[i].0.key_int() != kr[i + 1].0.key_int()
}

/// The key of point `i` as the segmentation reads it: the key itself, except
/// at the end of a run of equal keys that the next key does not follow
/// directly, where it is one more (so that the keys up to the next one get
/// the run's rank).
pub open spec fn adjusted_key<K: StaticBounded>(kr: Seq<(K, usize)>, i: int) -> int {
    let x = kr[i].0.key_int();
    if run_end(kr, i) && x + 1 != kr[i + 1].0.key_int() {
        x + 1
    } else {
        x
    }
}

impl PGMSegmentation {
    /// The point that the segmentation reads at position `i`: the adjusted
    /// key, with the position as its rank.
    fn point_at<K: StaticBounded>(key_ranks: &Vec<(K, usize)>, i: usize) -> (r: (K, usize))
        requires
            i < key_ranks@.len(),
            run_end(key_ranks@, i as int) ==> key_ranks@[i as int].0.key_int() < K::max_key().key_int(),
        ensures
            r.0.key_int() == adjusted_key(key_ranks@, i as int),
            r.1 == i,
    {
        let x = key_ranks[i].0;
        let n = key_ranks.len();
        if i > 0 && i + 1 < n && x.key_eq(&key_ranks[i - 1].0) && !x.key_eq(&key_ranks[i + 1].0) {
            let succ = x.key_succ();
            if !succ.key_eq(&key_ranks[i + 1].0) {
                return (succ, i);
            }
        }
        (x, i)
    }

    /// `starts` gives, for each segment of `segs`, the position of the point
    /// of `kr` where it starts: the first segment at the first point, the
    /// others in order, never going back, each segment's first key being the
    /// key that the segmentation reads at its position.
    pub open spec fn starts_at<K: StaticBounded>(segs: Seq<CanonicalSegment<K>>, kr: Seq<(K, usize)>, starts: Seq<int>) -> bool {
        &&& starts.len() == segs.len()
        &&& segs.len() > 0 ==> starts[0] == 0
        &&& forall|k: int|
            0 <= k < starts.len() ==> 0 <= #[trigger] starts[k] < kr.len() && segs[k].first.key_int() == adjusted_key(
                kr,
                starts[k],
            )
        &&& forall|k: int, l: int| 0 <= k <= l < starts.len() ==> #[trigger] starts[k] <= #[trigger] starts[l]
    }

    /// The positions where the segments of a segmentation of `kr` with error
    /// `e` start, reading from point `i` on, the model being in state `st` and
    /// its segment having started at `cur`: a segment is closed when the
    /// model does not take a point, which it is then given again; a new
    /// segment starts at that point when the refusal emptied the model.
    pub open spec fn seg_starts<K: StaticBounded>(kr: Seq<(K, usize)>, e: int, st: ModelState, cur: int, i: int) -> Seq<
        int,
    >
        decreases kr.len() - i,
    {
        if i >= kr.len() {
            seq![cur]
        } else {
            let x = adjusted_key(kr, i);
            if takes(st, x, i, e) {
                Self::seg_starts(kr, e, fed(st, x, i, e), cur, i + 1)
            } else {
                let st1 = fed(st, x, i, e);
                let cur1 = if st1.0.len() == 0 { i } else { cur };
                seq![cur] + Self::seg_starts(kr, e, fed(st1, x, i, e), cur1, i + 1)
            }
        }
    }

    /// The corners of the segments of a segmentation of `kr` with error `e`,
    /// reading from point `i` on, the model being in state `st`: each segment
    /// is what the model gives when it refuses a point, and the last one what
    /// it gives once every point is read.
    pub open spec fn seg_rects<K: StaticBounded>(kr: Seq<(K, usize)>, e: int, st: ModelState, i: int) -> Seq<
        Seq<(int, int)>,
    >
        decreases kr.len() - i,
    {
        if i >= kr.len() {
            seq![segment_corners(st)]
        } else {
            let x = adjusted_key(kr, i);
            if takes(st, x, i, e) {
                Self::seg_rects(kr, e, fed(st, x, i, e), i + 1)
            } else {
                let st1 = fed(st, x, i, e);
                seq![segment_corners(st1)] + Self::seg_rects(kr, e, fed(st1, x, i, e), i + 1)
            }
        }
    }

    /// The corners of the segments of the segmentation of `kr` with error
    /// `e`, in order.
    pub open spec fn segmentation_rects<K: StaticBounded>(kr: Seq<(K, usize)>, e: int) -> Seq<Seq<(int, int)>> {
        Self::seg_rects(kr, e, fed(start_state(), adjusted_key(kr, 0), 0, e), 1)
    }

    /// The corners of each segment of `segs`, in order.
    pub open spec fn corners_of<K: StaticBounded>(segs: Seq<CanonicalSegment<K>>) -> Seq<Seq<(int, int)>> {
        segs.map_values(|g: CanonicalSegment<K>| g.rect())
    }

    /// The positions where the segments of the segmentation of `kr` with
    /// error `e` start: the model is given the first point, then reads on.
    pub open spec fn segmentation_starts<K: StaticBounded>(kr: Seq<(K, usize)>, e: int) -> Seq<int> {
        Self::seg_starts(kr, e, fed(start_state(), adjusted_key(kr, 0), 0, e), 0, 1)
    }

    /// The segments of `segs` start at points of `kr`, in order.
    pub open spec fn segments_start_at_points<K: StaticBounded>(segs: Seq<CanonicalSegment<K>>, kr: Seq<(K, usize)>) -> bool {
        exists|starts: Seq<int>| Self::starts_at(segs, kr, starts)
    }

    /// Closes the current segment of `model`: appends its canonical segment.
    fn close_segment<K: StaticBounded, const EPSILON: usize>(
        segments: &mut Vec<CanonicalSegment<K>>,
        model: &OptimalPiecewiseLinearModel<K, EPSILON>,
    )
        requires
            model.wf(),
        ensures
            final(segments)@.len() == old(segments)@.len() + 1,
            final(segments)@.subrange(0, old(segments)@.len() as int) == old(segments)@,
            final(segments)@.last().first == model.first_key(),
            final(segments)@.last().rect() == segment_corners(model.state()),
    {
        let seg = model.get_segment();
        let ghost segs0 = segments@;
        segments.push(seg);
        proof {
            assert(segments@.subrange(0, segs0.len() as int) =~= segs0);
        }
    }

    /// Cuts the key-rank points into segments, each closed when the model
    /// refuses a point, and returns the canonical segment of each, in order. The
    /// rank of a point is its position. Every point is read, the last one too,
    /// and a segment is closed exactly where the model refuses a point: the
    /// segments start where `segmentation_starts` says. Every point of each
    /// segment lies within `EPSILON` ranks of the segment's line through
    /// corners 1 and 3 (`fits_segment`).
    pub fn make_segmentation<K: StaticBounded, const EPSILON: usize>(key_ranks: &Vec<(K, usize)>) -> (r: Vec<
        CanonicalSegment<K>,
    >)
        requires
            key_ranks@.len() >= 1,
            key_ranks@.len() + EPSILON <= RANK_LIMIT,
            key_ranks@.len() + EPSILON <= usize::MAX,
            forall|j: int| 0 <= j < key_ranks@.len() ==> -KEY_LIMIT <= #[trigger] key_ranks@[j].0.key_int() <= KEY_LIMIT,
            forall|j: int|
                #![trigger run_end(key_ranks@, j)]
                run_end(key_ranks@, j) ==> key_ranks@[j].0.key_int() < K::max_key().key_int() && key_ranks@[j].0.key_int()
                    < KEY_LIMIT,
        ensures
            1 <= r@.len() <= key_ranks@.len(),
            Self::starts_at(r@, key_ranks@, Self::segmentation_starts(key_ranks@, EPSILON as int)),
            Self::corners_of(r@) == Self::segmentation_rects(key_ranks@, EPSILON as int),
            Self::segments_start_at_points(r@, key_ranks@),
            segmentation_points(key_ranks@, EPSILON as int).len() == r@.len(),
            forall|k: int|
                0 <= k < r@.len() ==> fits_segment(
                    #[trigger] Self::corners_of(r@)[k],
                    segmentation_points(key_ranks@, EPSILON as int)[k],
                    EPSILON as int,
                ),
    {
        let n = key_ranks.len();
        let mut segments: Vec<CanonicalSegment<K>> = Vec::new();
        let mut model: OptimalPiecewiseLinearModel<K, EPSILON> = OptimalPiecewiseLinearModel::new();
        let p0 = Self::point_at(key_ranks, 0);
        model.add_point(p0);
        let ghost e = EPSILON as int;
        let ghost whole = Self::segmentation_starts(key_ranks@, e);
        let ghost whole_rects = Self::segmentation_rects(key_ranks@, e);
        proof {
            assert(Self::corners_of(segments@) =~= Seq::<Seq<(int, int)>>::empty());
            assert(Seq::<Seq<(int, int)>>::empty() + Self::seg_rects(key_ranks@, e, model.state(), 1) =~= whole_rects);
        }
        let ghost mut starts: Seq<int> = Seq::empty();
        let ghost mut cur: int = 0;
        let mut i: usize = 1;
        while i < n
            invariant
                n == key_ranks@.len(),
                1 <= i <= n,
                n + EPSILON <= RANK_LIMIT,
                n + EPSILON <= usize::MAX,
                forall|j: int| 0 <= j < n ==> -KEY_LIMIT <= #[trigger] key_ranks@[j].0.key_int() <= KEY_LIMIT,
                forall|j: int|
                    #![trigger run_end(key_ranks@, j)]
                    run_end(key_ranks@, j) ==> key_ranks@[j].0.key_int() < K::max_key().key_int() && key_ranks@[j].0.key_int()
                        < KEY_LIMIT,
                model.wf(),
                model.points().len() <= i,
                model.points().len() >= 1,
                segments@.len() < i,
                0 <= cur < i,
                segments@.len() == 0 ==> cur == 0,
                model.first_key().key_int() == adjusted_key(key_ranks@, cur),
                Self::starts_at(segments@, key_ranks@, starts),
                forall|k: int| 0 <= k < starts.len() ==> #[trigger] starts[k] <= cur,
                e == EPSILON as int,
                whole == Self::segmentation_starts(key_ranks@, e),
                starts + Self::seg_starts(key_ranks@, e, model.state(), cur, i as int) == whole,
                whole_rects == Self::segmentation_rects(key_ranks@, e),
                Self::corners_of(segments@) + Self::seg_rects(key_ranks@, e, model.state(), i as int) == whole_rects,
            decreases n - i,
        {
            proof {
                assert(run_end(key_ranks@, i as int) ==> key_ranks@[i as int].0.key_int() < K::max_key().key_int());
                assert(-KEY_LIMIT <= key_ranks@[i as int].0.key_int() <= KEY_LIMIT);
            }
            let p = Self::point_at(key_ranks, i);
            let ghost st0 = model.state();
            let ghost cur0 = cur;
            let ghost starts0 = starts;
            if !model.add_point(p) {
                let ghost segs0 = segments@;
                Self::close_segment(&mut segments, &model);
                proof {
                    assert forall|k: int| 0 <= k < segs0.len() implies segments@[k] == segs0[k] by {
                        assert(segments@.subrange(0, segs0.len() as int)[k] == segs0[k]);
                    }
                    starts = starts.push(cur);
                    assert(Self::corners_of(segments@) =~= Self::corners_of(segs0).push(segment_corners(model.state())));
                }
                let ghost st1 = model.state();
                let ghost was_empty = model.points().len() == 0;
                model.add_point(p);
                proof {
                    if was_empty {
                        cur = i as int;
                    }
                    assert(starts + Self::seg_starts(key_ranks@, e, model.state(), cur, i + 1) =~= starts0
                        + Self::seg_starts(key_ranks@, e, st0, cur0, i as int));
                    assert(Self::corners_of(segments@) + Self::seg_rects(key_ranks@, e, model.state(), i + 1)
                        =~= Self::corners_of(segs0) + Self::seg_rects(key_ranks@, e, st0, i as int));
                }
            }
            i += 1;
        }
        let ghost segs0 = segments@;
        Self::close_segment(&mut segments, &model);
        proof {
            assert forall|k: int| 0 <= k < segs0.len() implies segments@[k] == segs0[k] by {
                assert(segments@.subrange(0, segs0.len() as int)[k] == segs0[k]);
            }
            assert(Self::seg_starts(key_ranks@, e, model.state(), cur, n as int) == seq![cur]);
            assert(Self::corners_of(segments@) =~= Self::corners_of(segs0).push(segment_corners(model.state())));
            assert(Self::corners_of(segments@) =~= Self::corners_of(segs0) + Self::seg_rects(key_ranks@, e, model.state(), n as int));
            assert(starts.push(cur) =~= starts + seq![cur]);
            starts = starts.push(cur);
            assert(Self::starts_at(segments@, key_ranks@, starts));
            lemma_segmentation_fits(key_ranks@, e);
        }
        segments
    }
}

} // verus!
