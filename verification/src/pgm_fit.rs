//! Why the segments of the optimal piecewise linear model fit their points:
//! the line through corners 1 and 3 of a segment's rectangle keeps every
//! point's lower shift on or below it and its upper shift on or above it.
use vstd::prelude::*;
use crate::pgm::{adjusted_key, segment_corners, takes, PGMSegmentation, band_excludes, cross_int, diff, fed, first_fall, first_rise, hull_cut, sat_sub, slope_less, start_state, ModelState};
use vstd::arithmetic::mul::{lemma_mul_is_associative, lemma_mul_is_commutative, lemma_mul_is_distributive_add, lemma_mul_is_distributive_sub, lemma_mul_is_distributive_sub_other_way};

verus! {

/// The cross product of two vectors.
pub open spec fn vx(u: (int, int), v: (int, int)) -> int {
    u.0 * v.1 - u.1 * v.0
}

/// `f` lies on or below the line from `a` through `q` (for `a` left of `q`).
pub open spec fn under(a: (int, int), q: (int, int), f: (int, int)) -> bool {
    cross_int(a, q, f) <= 0
}

proof fn lemma_cross_from(a: (int, int), q: (int, int), f: (int, int))
    ensures
        cross_int(a, q, f) == vx(diff(f, q), diff(a, q)),
{
    assert(cross_int(a, q, f) == vx(diff(f, q), diff(a, q))) by (nonlinear_arith);
}

proof fn lemma_triple(a: (int, int), b: (int, int), c: (int, int))
    ensures
        a.0 * vx(b, c) + b.0 * vx(c, a) + c.0 * vx(a, b) == 0,
{
    assert(a.0 * vx(b, c) + b.0 * vx(c, a) + c.0 * vx(a, b) == 0) by (nonlinear_arith);
}

proof fn lemma_vx_anti(u: (int, int), v: (int, int))
    ensures
        vx(u, v) == -vx(v, u),
{
    assert(vx(u, v) == -vx(v, u)) by (nonlinear_arith);
}


proof fn lemma_vx_shift_scalar(ax: int, ay: int, bx: int, by: int, cx: int, cy: int)
    ensures
        (bx - ax) * (cy - ay) - (by - ay) * (cx - ax) == (ax * by - ay * bx) + (bx * cy - by * cx) + (cx * ay - cy * ax),
{
    lemma_mul_is_distributive_sub_other_way(cy - ay, bx, ax);
    lemma_mul_is_distributive_sub(bx, cy, ay);
    lemma_mul_is_distributive_sub(ax, cy, ay);
    lemma_mul_is_distributive_sub_other_way(cx - ax, by, ay);
    lemma_mul_is_distributive_sub(by, cx, ax);
    lemma_mul_is_distributive_sub(ay, cx, ax);
    lemma_mul_is_commutative(ax, ay);
    lemma_mul_is_commutative(ay, bx);
    lemma_mul_is_commutative(ax, cy);
    lemma_mul_is_commutative(ay, cx);
}

/// The cross product at `a` of `b` and `c` in terms of the cross products
/// of the vectors themselves.
proof fn lemma_vx_shift(a: (int, int), b: (int, int), c: (int, int))
    ensures
        vx(diff(b, a), diff(c, a)) == vx(a, b) + vx(b, c) + vx(c, a),
{
    lemma_vx_shift_scalar(a.0, a.1, b.0, b.1, c.0, c.1);
}

/// Slopes to `q` from points left of it are ordered transitively.
proof fn lemma_under_trans(a: (int, int), b: (int, int), c: (int, int), q: (int, int))
    requires
        a.0 < q.0,
        b.0 < q.0,
        c.0 < q.0,
        under(a, q, b),
        under(b, q, c),
    ensures
        under(a, q, c),
{
    let aa = diff(a, q);
    let bb = diff(b, q);
    let cc = diff(c, q);
    lemma_cross_from(a, q, b);
    lemma_cross_from(b, q, c);
    lemma_cross_from(a, q, c);
    lemma_triple(aa, bb, cc);
    let u = vx(aa, bb);
    let v = vx(bb, cc);
    let w = vx(cc, aa);
    lemma_vx_anti(bb, aa);
    lemma_vx_anti(cc, bb);
    lemma_vx_anti(aa, cc);
    assert(u >= 0 && v >= 0);
    assert(aa.0 * v <= 0) by (nonlinear_arith)
        requires
            aa.0 < 0,
            v >= 0,
    ;
    assert(cc.0 * u <= 0) by (nonlinear_arith)
        requires
            cc.0 < 0,
            u >= 0,
    ;
    assert(bb.0 * w >= 0);
    assert(w <= 0) by (nonlinear_arith)
        requires
            bb.0 < 0,
            bb.0 * w >= 0,
    ;
}


/// The cross product against a line `(a, b)` is affine: from the values at
/// `w`, `q` and `c` of the side function of the line, the side of `c`
/// relative to the line from `w` through `q`.
proof fn lemma_affine_scalar(dx: int, dy: int, qx: int, qy: int, cx: int, cy: int, wx: int, wy: int)
    ensures
        dx * (qx * cy - qy * cx) == qx * (dx * (cy + wy) - dy * (cx + wx)) - cx * (dx * (qy + wy) - dy * (qx + wx)) - (qx
            - cx) * (dx * wy - dy * wx),
{
    let a = dx * cy;
    let b = dx * wy;
    let c = dy * cx;
    let d = dy * wx;
    let f = dx * qy;
    let g = dy * qx;
    lemma_mul_is_distributive_add(dx, cy, wy);
    lemma_mul_is_distributive_add(dy, cx, wx);
    lemma_mul_is_distributive_add(dx, qy, wy);
    lemma_mul_is_distributive_add(dy, qx, wx);
    lemma_mul_is_distributive_sub(qx, a + b, c + d);
    lemma_mul_is_distributive_add(qx, a, b);
    lemma_mul_is_distributive_add(qx, c, d);
    lemma_mul_is_distributive_sub(cx, f + b, g + d);
    lemma_mul_is_distributive_add(cx, f, b);
    lemma_mul_is_distributive_add(cx, g, d);
    lemma_mul_is_distributive_sub_other_way(b - d, qx, cx);
    lemma_mul_is_distributive_sub(qx, b, d);
    lemma_mul_is_distributive_sub(cx, b, d);
    lemma_mul_is_distributive_sub(dx, qx * cy, qy * cx);
    lemma_mul_is_associative(dx, qx, cy);
    lemma_mul_is_associative(qx, dx, cy);
    lemma_mul_is_commutative(dx, qx);
    lemma_mul_is_associative(dx, qy, cx);
    lemma_mul_is_associative(cx, dx, qy);
    lemma_mul_is_commutative(dx, cx);
    lemma_mul_is_commutative(cx * dx, qy);
    lemma_mul_is_commutative(dx * qy, cx);
    lemma_mul_is_associative(qx, dy, cx);
    lemma_mul_is_associative(cx, dy, qx);
    lemma_mul_is_commutative(qx, dy * cx);
    lemma_mul_is_commutative(cx, dy * qx);
    lemma_mul_is_associative(dy, cx, qx);
    lemma_mul_is_associative(dy, qx, cx);
    lemma_mul_is_commutative(cx, qx);
}

proof fn lemma_affine(a: (int, int), b: (int, int), w: (int, int), q: (int, int), c: (int, int))
    ensures
        (b.0 - a.0) * cross_int(w, q, c) == (q.0 - w.0) * cross_int(a, b, c) - (c.0 - w.0) * cross_int(a, b, q) - ((q.0
            - w.0) - (c.0 - w.0)) * cross_int(a, b, w),
{
    let dx = b.0 - a.0;
    let dy = b.1 - a.1;
    let qx = q.0 - w.0;
    let qy = q.1 - w.1;
    let cx = c.0 - w.0;
    let cy = c.1 - w.1;
    let wx = w.0 - a.0;
    let wy = w.1 - a.1;
    assert(cross_int(w, q, c) == qx * cy - qy * cx);
    assert(cross_int(a, b, c) == dx * (cy + wy) - dy * (cx + wx));
    assert(cross_int(a, b, q) == dx * (qy + wy) - dy * (qx + wx));
    assert(cross_int(a, b, w) == dx * wy - dy * wx);
    lemma_affine_scalar(dx, dy, qx, qy, cx, cy, wx, wy);
}

/// Against a line `(a, b)`: a point `c` on or above it lies on or above the
/// line from `w` through `q` when `w` is on or below the line `(a, b)`, and
/// either `c` is left of `w` and `q` on or above `(a, b)`, or `c` lies
/// between `w` and `q` and `q` is on or below `(a, b)`.
pub proof fn lemma_above_chord(a: (int, int), b: (int, int), w: (int, int), q: (int, int), c: (int, int))
    requires
        a.0 < b.0,
        w.0 < q.0,
        cross_int(a, b, w) <= 0,
        cross_int(a, b, c) >= 0,
        (c.0 <= w.0 && cross_int(a, b, q) >= 0) || (w.0 <= c.0 <= q.0 && cross_int(a, b, q) <= 0),
    ensures
        cross_int(w, q, c) >= 0,
{
    lemma_affine(a, b, w, q, c);
    let d = b.0 - a.0;
    let k = cross_int(w, q, c);
    let qx = q.0 - w.0;
    let cx = c.0 - w.0;
    let lc = cross_int(a, b, c);
    let lq = cross_int(a, b, q);
    let lw = cross_int(a, b, w);
    assert(d * k >= 0) by (nonlinear_arith)
        requires
            d * k == qx * lc - cx * lq - (qx - cx) * lw,
            qx > 0,
            lc >= 0,
            lw <= 0,
            (cx <= 0 && lq >= 0) || (0 <= cx <= qx && lq <= 0),
    ;
    assert(k >= 0) by (nonlinear_arith)
        requires
            d > 0,
            d * k >= 0,
    ;
}

/// Against a line `(a, b)`: a point `f` on or below it lies on or below the
/// line from `w`, a point of the line, through `q`, when either `f` is left
/// of `w` and `q` is below the line, or `f` is right of `w` and `q` is on or
/// above the line.
pub proof fn lemma_below_from_line_point(a: (int, int), b: (int, int), w: (int, int), q: (int, int), f: (int, int))
    requires
        a.0 < b.0,
        w.0 < q.0,
        cross_int(a, b, w) == 0,
        cross_int(a, b, f) <= 0,
        (f.0 <= w.0 && cross_int(a, b, q) <= 0) || (w.0 <= f.0 && cross_int(a, b, q) >= 0),
    ensures
        cross_int(w, q, f) <= 0,
{
    lemma_affine(a, b, w, q, f);
    let d = b.0 - a.0;
    let k = cross_int(w, q, f);
    let qx = q.0 - w.0;
    let fx = f.0 - w.0;
    let lf = cross_int(a, b, f);
    let lq = cross_int(a, b, q);
    assert(d * k <= 0) by (nonlinear_arith)
        requires
            d * k == qx * lf - fx * lq - (qx - fx) * 0,
            qx > 0,
            lf <= 0,
            (fx <= 0 && lq <= 0) || (fx >= 0 && lq >= 0),
    ;
    assert(k <= 0) by (nonlinear_arith)
        requires
            d > 0,
            d * k <= 0,
    ;
}

/// Along a concave chain left of `q`, once the slope to `q` rises it keeps
/// rising.
proof fn lemma_rising(a: (int, int), b: (int, int), c: (int, int), q: (int, int))
    requires
        a.0 < b.0,
        b.0 < c.0,
        c.0 < q.0,
        cross_int(a, b, c) < 0,
        !under(b, q, a),
    ensures
        !under(c, q, b),
{
    let aa = diff(a, q);
    let bb = diff(b, q);
    let cc = diff(c, q);
    lemma_cross_from(b, q, a);
    lemma_cross_from(c, q, b);
    lemma_triple(aa, bb, cc);
    let u = vx(aa, bb);
    let v = vx(bb, cc);
    let w = vx(cc, aa);
    assert(cross_int(a, b, c) == vx(diff(bb, aa), diff(cc, aa)));
    lemma_vx_shift(aa, bb, cc);
    if v <= 0 {
        assert(false) by (nonlinear_arith)
            requires
                aa.0 < bb.0,
                bb.0 < cc.0,
                cc.0 < 0,
                u > 0,
                v <= 0,
                u + v + w < 0,
                aa.0 * v + bb.0 * w + cc.0 * u == 0,
        ;
    }
}

/// A point on or below a chain segment, left of `q`, has a slope to `q` at
/// least that of one of the segment's ends.
proof fn lemma_under_segment(h0: (int, int), h1: (int, int), f: (int, int), q: (int, int))
    requires
        h0.0 < h1.0,
        h0.0 <= f.0 <= h1.0,
        h1.0 < q.0,
        cross_int(h0, h1, f) <= 0,
    ensures
        under(h0, q, f) || under(h1, q, f),
{
    let hh = diff(h0, q);
    let hh1 = diff(h1, q);
    let ff = diff(f, q);
    lemma_cross_from(h0, q, f);
    lemma_cross_from(h1, q, f);
    lemma_triple(hh, hh1, ff);
    let a = vx(ff, hh);
    let b = vx(ff, hh1);
    let c = vx(hh, hh1);
    assert(cross_int(h0, h1, f) == vx(diff(hh1, hh), diff(ff, hh)));
    lemma_vx_shift(hh, hh1, ff);
    lemma_vx_anti(hh1, ff);
    lemma_vx_anti(hh1, ff);
    lemma_vx_anti(ff, hh);
    if a > 0 && b > 0 {
        assert(false) by (nonlinear_arith)
            requires
                hh.0 < hh1.0,
                hh.0 <= ff.0 <= hh1.0,
                hh1.0 < 0,
                a > 0,
                b > 0,
                -b + c + a <= 0,
                hh.0 * (-b) + hh1.0 * a + ff.0 * c == 0,
        ;
    }
}


/// The slope from `a` to `q` is below the slope from `b` to `q` exactly when
/// `a` is strictly above the line from `b` through `q`.
proof fn lemma_slope_under(a: (int, int), b: (int, int), q: (int, int))
    ensures
        slope_less(diff(a, q), diff(b, q)) == !under(b, q, a),
        under(a, q, b) == (cross_int(b, q, a) >= 0),
{
    lemma_cross_from(b, q, a);
    lemma_cross_from(a, q, b);
    lemma_vx_anti(diff(a, q), diff(b, q));
}

/// The scan of `first_rise` from `i` stops within the chain, at a point
/// whose slope to `q` is at most that of every point it passed, and before a
/// point of larger slope, if any.
proof fn lemma_rise(h: Seq<(int, int)>, q: (int, int), i: int)
    requires
        0 <= i < h.len(),
        forall|k: int| i <= k < h.len() ==> (#[trigger] h[k]).0 < q.0,
    ensures
        i <= first_rise(h, q, i) < h.len(),
        forall|k: int| i <= k <= first_rise(h, q, i) ==> under(h[first_rise(h, q, i)], q, #[trigger] h[k]),
        first_rise(h, q, i) + 1 < h.len() ==> !under(h[first_rise(h, q, i) + 1], q, h[first_rise(h, q, i)]),
    decreases h.len() - i,
{
    let m = first_rise(h, q, i);
    if i + 1 < h.len() {
        lemma_slope_under(h[i], h[i + 1], q);
    }
    if i + 1 < h.len() && !slope_less(diff(h[i], q), diff(h[i + 1], q)) {
        lemma_rise(h, q, i + 1);
        assert(under(h[m], q, h[i + 1]));
        lemma_under_trans(h[m], h[i + 1], h[i], q);
        assert forall|k: int| i <= k <= m implies under(h[m], q, #[trigger] h[k]) by {
            if k > i {
            }
        }
    } else {
        assert(m == i);
        assert(cross_int(h[i], q, h[i]) == 0) by (nonlinear_arith);
    }
}

/// Past the point where the scan stops, the slopes to `q` along a concave
/// chain keep rising, so none is below the stopping point's.
proof fn lemma_after_rise(h: Seq<(int, int)>, s: int, q: (int, int), m: int, k: int)
    requires
        0 <= s <= m <= k < h.len(),
        forall|j: int| s <= j < h.len() - 1 ==> (#[trigger] h[j]).0 < h[j + 1].0,
        forall|j: int| s <= j < h.len() - 2 ==> cross_int(#[trigger] h[j], h[j + 1], h[j + 2]) < 0,
        forall|j: int| s <= j < h.len() ==> (#[trigger] h[j]).0 < q.0,
        m + 1 < h.len() ==> !under(h[m + 1], q, h[m]),
    ensures
        under(h[m], q, h[k]),
        k + 1 < h.len() ==> !under(h[k + 1], q, h[k]),
    decreases k - m,
{
    if k == m {
        assert(cross_int(h[m], q, h[m]) == 0) by (nonlinear_arith);
    } else {
        lemma_after_rise(h, s, q, m, k - 1);
        lemma_slope_under(h[k - 1], h[k], q);
        lemma_cross_from(h[k], q, h[k - 1]);
        lemma_cross_from(h[k - 1], q, h[k]);
        lemma_vx_anti(diff(h[k], q), diff(h[k - 1], q));
        assert(under(h[k - 1], q, h[k]));
        lemma_under_trans(h[m], h[k - 1], h[k], q);
        if k + 1 < h.len() {
            assert(h[k - 1].0 < h[k].0);
            assert(h[k].0 < h[k + 1].0);
            lemma_rising(h[k - 1], h[k], h[k + 1], q);
        }
    }
}

/// Every lower point `f` of a point lies on or below the line from the chain
/// point where the scan from `s` stops through `q`: `q` is strictly below the
/// line `(a2, b2)` of largest slope, which starts at the chain's start, and
/// on or above the line `(a1, b1)` of smallest slope, which ends at the
/// chain's end; every lower point is on or below both lines, and, from the
/// chain's start on, on or below a chain segment or past the chain's end.
pub proof fn lemma_tangent(
    h: Seq<(int, int)>,
    s: int,
    q: (int, int),
    f: (int, int),
    a2: (int, int),
    b2: (int, int),
    a1: (int, int),
    b1: (int, int),
)
    requires
        0 <= s < h.len(),
        h[s] == a2,
        h.last() == b1,
        forall|j: int| s <= j < h.len() - 1 ==> (#[trigger] h[j]).0 < h[j + 1].0,
        forall|j: int| s <= j < h.len() - 2 ==> cross_int(#[trigger] h[j], h[j + 1], h[j + 2]) < 0,
        forall|j: int| s <= j < h.len() ==> (#[trigger] h[j]).0 < q.0,
        f.0 < q.0,
        a2.0 < b2.0,
        a1.0 < b1.0,
        cross_int(a2, b2, f) <= 0,
        cross_int(a1, b1, f) <= 0,
        cross_int(a2, b2, a2) == 0,
        cross_int(a1, b1, b1) == 0,
        cross_int(a2, b2, q) < 0,
        cross_int(a1, b1, q) >= 0,
        f.0 >= a2.0 ==> f.0 >= b1.0 || exists|k: int|
            s <= k < h.len() - 1 && #[trigger] h[k].0 <= f.0 && f.0 <= h[k + 1].0 && cross_int(h[k], h[k + 1], f) <= 0,
    ensures
        s <= first_rise(h, q, s) < h.len(),
        under(h[first_rise(h, q, s)], q, f),
{
    let m = first_rise(h, q, s);
    lemma_rise(h, q, s);
    let hm = h[m];
    if f.0 < a2.0 {
        lemma_below_from_line_point(a2, b2, a2, q, f);
        lemma_under_trans(hm, a2, f, q);
    } else if f.0 >= b1.0 {
        lemma_below_from_line_point(a1, b1, b1, q, f);
        lemma_after_rise(h, s, q, m, h.len() - 1);
        assert(under(hm, q, h[h.len() - 1]));
        lemma_under_trans(hm, b1, f, q);
    } else {
        let k = choose|k: int|
            s <= k < h.len() - 1 && #[trigger] h[k].0 <= f.0 && f.0 <= h[k + 1].0 && cross_int(h[k], h[k + 1], f) <= 0;
        lemma_under_segment(h[k], h[k + 1], f, q);
        if k <= m {
            assert(under(hm, q, h[k]));
        } else {
            lemma_after_rise(h, s, q, m, k);
        }
        if k + 1 <= m {
            assert(under(hm, q, h[k + 1]));
        } else {
            lemma_after_rise(h, s, q, m, k + 1);
        }
        if under(h[k], q, f) {
            lemma_under_trans(hm, h[k], f, q);
        } else {
            lemma_under_trans(hm, h[k + 1], f, q);
        }
    }
}


/// Swapping the last two points of a cross product changes its sign.
proof fn lemma_cross_swap(o: (int, int), a: (int, int), b: (int, int))
    ensures
        cross_int(o, a, b) == -cross_int(o, b, a),
{
    assert(cross_int(o, a, b) == -cross_int(o, b, a)) by (nonlinear_arith);
}

/// A point directly below `q` lies on or below any line from a point left
/// of `q` through `q`.
proof fn lemma_below_same_x(w: (int, int), q: (int, int), f: (int, int))
    requires
        w.0 < q.0,
        f.0 == q.0,
        f.1 <= q.1,
    ensures
        cross_int(w, q, f) <= 0,
{
    let dx = q.0 - w.0;
    let d = q.1 - f.1;
    assert(cross_int(w, q, f) == -(dx * d)) by (nonlinear_arith)
        requires
            f.0 == q.0,
            dx == q.0 - w.0,
            d == q.1 - f.1,
    ;
    assert(dx * d >= 0) by (nonlinear_arith)
        requires
            dx > 0,
            d >= 0,
    ;
}

/// What `hull_cut` keeps of a concave chain before `p` joins it: at least
/// the chain's start, the last two kept points turning the chain's way with
/// `p`, and every point it drops on or below the line from the last kept
/// point through `p`.
proof fn lemma_cut(h: Seq<(int, int)>, start: int, p: (int, int), e: int)
    requires
        0 <= start < e <= h.len(),
        forall|j: int| start <= j < h.len() ==> (#[trigger] h[j]).0 < p.0,
    ensures
        start + 1 <= hull_cut(h, start, p, e, false) <= e,
        hull_cut(h, start, p, e, false) - start >= 2 ==> cross_int(
            h[hull_cut(h, start, p, e, false) - 2],
            h[hull_cut(h, start, p, e, false) - 1],
            p,
        ) < 0,
        forall|j: int|
            hull_cut(h, start, p, e, false) <= j < e ==> under(h[hull_cut(h, start, p, e, false) - 1], p, #[trigger] h[j]),
    decreases e,
{
    let c = hull_cut(h, start, p, e, false);
    if 2 <= e <= h.len() && e - start >= 2 && cross_int(h[e - 2], h[e - 1], p) >= 0 {
        lemma_cut(h, start, p, e - 1);
        lemma_cross_swap(h[e - 2], h[e - 1], p);
        assert(under(h[e - 2], p, h[e - 1]));
        assert forall|j: int| c <= j < e implies under(h[c - 1], p, #[trigger] h[j]) by {
            if j == e - 1 && c - 1 < e - 2 {
                assert(under(h[c - 1], p, h[e - 2]));
                lemma_under_trans(h[c - 1], h[e - 2], h[e - 1], p);
            }
        }
    }
}

/// A point on or below the last segment of a chain, which ends directly
/// below `q`, lies on or below the line from the segment's start through
/// `q`.
proof fn lemma_under_last_segment(h0: (int, int), b: (int, int), f: (int, int), q: (int, int))
    requires
        h0.0 < b.0,
        b.0 == q.0,
        b.1 <= q.1,
        h0.0 <= f.0 <= b.0,
        cross_int(h0, b, f) <= 0,
    ensures
        under(h0, q, f),
{
    lemma_affine(h0, b, h0, q, f);
    let d = b.0 - h0.0;
    let k = cross_int(h0, q, f);
    let qx = q.0 - h0.0;
    let fx = f.0 - h0.0;
    let lf = cross_int(h0, b, f);
    let lq = cross_int(h0, b, q);
    assert(lq == d * (q.1 - b.1) + d * (b.1 - h0.1) - (b.1 - h0.1) * qx) by (nonlinear_arith)
        requires
            lq == cross_int(h0, b, q),
            d == b.0 - h0.0,
            qx == q.0 - h0.0,
            b.0 == q.0,
    ;
    assert(lq >= 0) by (nonlinear_arith)
        requires
            lq == d * (q.1 - b.1) + d * (b.1 - h0.1) - (b.1 - h0.1) * qx,
            d == qx,
            d > 0,
            q.1 >= b.1,
    ;
    assert(cross_int(h0, b, h0) == 0) by (nonlinear_arith);
    assert(d * k <= 0) by (nonlinear_arith)
        requires
            d * k == qx * lf - fx * lq - (qx - fx) * 0,
            qx > 0,
            lf <= 0,
            fx >= 0,
            lq >= 0,
    ;
    assert(k <= 0) by (nonlinear_arith)
        requires
            d > 0,
            d * k <= 0,
    ;
}


/// The line `(a, b)` keeps the floor points on or below it and the ceiling
/// points on or above it.
pub open spec fn feasible(a: (int, int), b: (int, int), fl: Seq<(int, int)>, cl: Seq<(int, int)>) -> bool {
    &&& a.0 < b.0
    &&& forall|i: int| 0 <= i < fl.len() ==> cross_int(a, b, #[trigger] fl[i]) <= 0
    &&& forall|i: int| 0 <= i < cl.len() ==> cross_int(a, b, #[trigger] cl[i]) >= 0
}

/// From `s` on, `h` goes right and turns clockwise at each point.
#[verifier::opaque]
pub open spec fn concave_chain(h: Seq<(int, int)>, s: int) -> bool {
    &&& 0 <= s < h.len()
    &&& forall|j: int, k: int| s <= j < k < h.len() ==> (#[trigger] h[j]).0 < (#[trigger] h[k]).0
    &&& forall|j: int| s <= j < h.len() - 2 ==> cross_int(#[trigger] h[j], h[j + 1], h[j + 2]) < 0
}

/// `f` lies on or below a segment of `h` from `s` on, within its keys.
pub open spec fn covered(h: Seq<(int, int)>, s: int, f: (int, int)) -> bool {
    exists|k: int| s <= k < h.len() - 1 && #[trigger] h[k].0 <= f.0 && f.0 <= h[k + 1].0 && cross_int(h[k], h[k + 1], f) <= 0
}

/// From `s` on, the points of `h` are floor points.
pub open spec fn from_floor(h: Seq<(int, int)>, s: int, fl: Seq<(int, int)>) -> bool {
    forall|k: int| s <= k < h.len() ==> fl.contains(#[trigger] h[k])
}

/// Floor and ceiling points come in pairs, one above the other, from left to
/// right.
pub open spec fn stacked(fl: Seq<(int, int)>, cl: Seq<(int, int)>) -> bool {
    &&& fl.len() == cl.len()
    &&& forall|i: int, j: int| 0 <= i < j < fl.len() ==> (#[trigger] fl[i]).0 < (#[trigger] fl[j]).0
    &&& forall|i: int| 0 <= i < fl.len() ==> (#[trigger] cl[i]).0 == fl[i].0 && fl[i].1 <= cl[i].1
}

/// Every floor point from the chain's start on is on or below a segment of
/// the chain, or past its end.
#[verifier::opaque]
pub open spec fn chain_covers(h: Seq<(int, int)>, s: int, fl: Seq<(int, int)>) -> bool {
    forall|i: int| 0 <= i < fl.len() && fl[i].0 >= h[s].0 ==> #[trigger] fl[i].0 >= h.last().0 || covered(h, s, fl[i])
}

/// One side of a segment model, but for its line of smallest slope: the
/// line `(a2, b2)` of largest slope keeps the floor points on or below and
/// the ceiling points on or above it; the chain of floor points from `s` on
/// starts at `a2`, ends at `b1`, and has every floor point from its start on
/// on or below it or past its end.
pub open spec fn side_core(
    fl: Seq<(int, int)>,
    cl: Seq<(int, int)>,
    a2: (int, int),
    b2: (int, int),
    b1: (int, int),
    h: Seq<(int, int)>,
    s: int,
) -> bool {
    &&& stacked(fl, cl)
    &&& feasible(a2, b2, fl, cl)
    &&& concave_chain(h, s)
    &&& h[s] == a2
    &&& h.last() == b1
    &&& from_floor(h, s, fl)
    &&& chain_covers(h, s, fl)
}

/// One side of a segment model: the lines `(a2, b2)` of largest slope and
/// `(a1, b1)` of smallest slope both keep the floor points on or below and
/// the ceiling points on or above them, and the chain is as `side_core` says.
pub open spec fn half(
    fl: Seq<(int, int)>,
    cl: Seq<(int, int)>,
    a2: (int, int),
    b2: (int, int),
    a1: (int, int),
    b1: (int, int),
    h: Seq<(int, int)>,
    s: int,
) -> bool {
    &&& side_core(fl, cl, a2, b2, b1, h, s)
    &&& feasible(a1, b1, fl, cl)
}

proof fn lemma_chain_x(h: Seq<(int, int)>, s: int, j: int, k: int)
    requires
        concave_chain(h, s),
        s <= j < k < h.len(),
    ensures
        h[j].0 < h[k].0,
{
    reveal(concave_chain);
}

proof fn lemma_chain_range(h: Seq<(int, int)>, s: int)
    requires
        concave_chain(h, s),
    ensures
        0 <= s < h.len(),
{
    reveal(concave_chain);
}

proof fn lemma_chain_facts(h: Seq<(int, int)>, s: int)
    requires
        concave_chain(h, s),
    ensures
        0 <= s < h.len(),
        forall|j: int| s <= j < h.len() - 1 ==> (#[trigger] h[j]).0 < h[j + 1].0,
        forall|j: int| s <= j < h.len() - 2 ==> cross_int(#[trigger] h[j], h[j + 1], h[j + 2]) < 0,
{
    reveal(concave_chain);
    assert forall|j: int| s <= j < h.len() - 1 implies (#[trigger] h[j]).0 < h[j + 1].0 by {
        assert(h[j].0 < h[j + 1].0);
    }
}

proof fn lemma_covers_at(h: Seq<(int, int)>, s: int, fl: Seq<(int, int)>, i: int)
    requires
        chain_covers(h, s, fl),
        0 <= i < fl.len(),
        fl[i].0 >= h[s].0,
    ensures
        fl[i].0 >= h.last().0 || covered(h, s, fl[i]),
{
    reveal(chain_covers);
}

proof fn lemma_floor_at(h: Seq<(int, int)>, s: int, fl: Seq<(int, int)>, k: int) -> (j: int)
    requires
        from_floor(h, s, fl),
        s <= k < h.len(),
    ensures
        0 <= j < fl.len(),
        h[k] == fl[j],
{
    assert(fl.contains(h[k]));
    choose|j: int| 0 <= j < fl.len() && fl[j] == h[k]
}

/// Moving a chain's start forward keeps a floor point covered.
#[verifier::spinoff_prover]
#[verifier::rlimit(60)]
proof fn lemma_cover_advance_one(h: Seq<(int, int)>, s: int, s1: int, fl: Seq<(int, int)>, i: int)
    requires
        concave_chain(h, s),
        s <= s1 < h.len(),
        from_floor(h, s, fl),
        chain_covers(h, s, fl),
        forall|a: int, b: int| 0 <= a < b < fl.len() ==> (#[trigger] fl[a]).0 < (#[trigger] fl[b]).0,
        0 <= i < fl.len(),
        fl[i].0 >= h[s1].0,
    ensures
        fl[i].0 >= h.last().0 || covered(h, s1, fl[i]),
{
    let f = fl[i];
    if s1 > s {
        lemma_chain_x(h, s, s, s1);
    }
    assert(fl[i].0 >= h[s].0);
    lemma_covers_at(h, s, fl, i);
    if !(f.0 >= h.last().0) {
        assert(covered(h, s, f));
        let k = choose|k: int|
            s <= k < h.len() - 1 && #[trigger] h[k].0 <= f.0 && f.0 <= h[k + 1].0 && cross_int(h[k], h[k + 1], f) <= 0;
        if k < s1 {
            if k + 1 < s1 {
                lemma_chain_x(h, s, k + 1, s1);
            }
            assert(f.0 == h[s1].0);
            let j = lemma_floor_at(h, s, fl, s1);
            if j < i {
                assert(fl[j].0 < fl[i].0);
            } else if j > i {
                assert(fl[i].0 < fl[j].0);
            }
            assert(f == h[s1]);
            if s1 == h.len() - 1 {
                assert(f.0 >= h.last().0);
            }
            lemma_chain_x(h, s, s1, s1 + 1);
            assert(cross_int(h[s1], h[s1 + 1], h[s1]) == 0) by (nonlinear_arith);
            assert(covered(h, s1, f));
        } else {
            assert(covered(h, s1, f));
        }
    }
}

/// Moving a chain's start forward keeps it covering the floor points.
proof fn lemma_cover_advance(h: Seq<(int, int)>, s: int, s1: int, fl: Seq<(int, int)>)
    requires
        concave_chain(h, s),
        s <= s1 < h.len(),
        from_floor(h, s, fl),
        chain_covers(h, s, fl),
        forall|a: int, b: int| 0 <= a < b < fl.len() ==> (#[trigger] fl[a]).0 < (#[trigger] fl[b]).0,
    ensures
        concave_chain(h, s1),
        from_floor(h, s1, fl),
        chain_covers(h, s1, fl),
{
    assert forall|k: int| s1 <= k < h.len() implies fl.contains(#[trigger] h[k]) by {
        let j = lemma_floor_at(h, s, fl, k);
    }
    assert(concave_chain(h, s1)) by {
        reveal(concave_chain);
    }
    reveal(chain_covers);
    assert forall|i: int| 0 <= i < fl.len() && fl[i].0 >= h[s1].0 implies #[trigger] fl[i].0 >= h.last().0 || covered(
        h,
        s1,
        fl[i],
    ) by {
        lemma_cover_advance_one(h, s, s1, fl, i);
    }
}


/// The points of a chain from its start on are left of `p` when every floor
/// point is.
proof fn lemma_chain_left(h: Seq<(int, int)>, s: int, fl: Seq<(int, int)>, p: (int, int))
    requires
        concave_chain(h, s),
        from_floor(h, s, fl),
        forall|i: int| 0 <= i < fl.len() ==> (#[trigger] fl[i]).0 < p.0,
    ensures
        0 <= s < h.len(),
        forall|j: int| s <= j < h.len() ==> (#[trigger] h[j]).0 < p.0,
{
    reveal(concave_chain);
    assert forall|j: int| s <= j < h.len() implies (#[trigger] h[j]).0 < p.0 by {
        let k = lemma_floor_at(h, s, fl, j);
    }
}

/// After the cut before `pf`, an old floor point is still on or below a kept
/// segment, or on or below the segment from the last kept point to `pf`.
#[verifier::spinoff_prover]
#[verifier::rlimit(60)]
proof fn lemma_cover_push_one(
    fl: Seq<(int, int)>,
    a1: (int, int),
    b1: (int, int),
    h: Seq<(int, int)>,
    s: int,
    pf: (int, int),
    i: int,
    c: int,
)
    requires
        concave_chain(h, s),
        0 <= s < h.len(),
        chain_covers(h, s, fl),
        h.last() == b1,
        forall|j: int| s <= j < h.len() ==> (#[trigger] h[j]).0 < pf.0,
        a1.0 < b1.0,
        cross_int(a1, b1, fl[i]) <= 0,
        fl[i].0 < pf.0,
        cross_int(a1, b1, pf) > 0,
        0 <= i < fl.len(),
        fl[i].0 >= h[s].0,
        c == hull_cut(h, s, pf, h.len() as int, false),
        s + 1 <= c <= h.len(),
        forall|j: int| c <= j < h.len() ==> under(h[c - 1], pf, #[trigger] h[j]),
    ensures
        (exists|k: int|
            s <= k && k + 1 < c && #[trigger] h[k].0 <= fl[i].0 && fl[i].0 <= h[k + 1].0 && cross_int(h[k], h[k + 1], fl[i])
                <= 0) || (h[c - 1].0 <= fl[i].0 && cross_int(h[c - 1], pf, fl[i]) <= 0),
{
    let f = fl[i];
    lemma_covers_at(h, s, fl, i);
    if f.0 >= b1.0 {
        assert(cross_int(a1, b1, b1) == 0) by (nonlinear_arith);
        lemma_below_from_line_point(a1, b1, b1, pf, f);
        assert(under(h[h.len() - 1], pf, f));
        if c < h.len() {
            assert(under(h[c - 1], pf, h[h.len() - 1]));
            lemma_under_trans(h[c - 1], h[h.len() - 1], f, pf);
        }
        if c - 1 < h.len() - 1 {
            lemma_chain_x(h, s, c - 1, h.len() - 1);
        }
    } else {
        let k = choose|k: int|
            s <= k < h.len() - 1 && #[trigger] h[k].0 <= f.0 && f.0 <= h[k + 1].0 && cross_int(h[k], h[k + 1], f) <= 0;
        if k + 1 >= c {
            lemma_chain_x(h, s, k, k + 1);
            lemma_under_segment(h[k], h[k + 1], f, pf);
            if k == c - 1 {
                assert(cross_int(h[k], pf, h[k]) == 0) by (nonlinear_arith);
            } else {
                assert(under(h[c - 1], pf, h[k]));
            }
            assert(under(h[c - 1], pf, h[k + 1]));
            if under(h[k], pf, f) {
                lemma_under_trans(h[c - 1], h[k], f, pf);
            } else {
                lemma_under_trans(h[c - 1], h[k + 1], f, pf);
            }
            if c - 1 < k {
                lemma_chain_x(h, s, c - 1, k);
            }
        }
    }
}


/// After the cut and push, every floor point is still covered.
#[verifier::spinoff_prover]
#[verifier::rlimit(60)]
proof fn lemma_cover_push_all(
    fl: Seq<(int, int)>,
    a1: (int, int),
    b1: (int, int),
    h: Seq<(int, int)>,
    s: int,
    pf: (int, int),
    c: int,
)
    requires
        concave_chain(h, s),
        0 <= s < h.len(),
        chain_covers(h, s, fl),
        h.last() == b1,
        forall|j: int| s <= j < h.len() ==> (#[trigger] h[j]).0 < pf.0,
        forall|a: int| 0 <= a < fl.len() ==> (#[trigger] fl[a]).0 < pf.0,
        a1.0 < b1.0,
        forall|a: int| 0 <= a < fl.len() ==> cross_int(a1, b1, #[trigger] fl[a]) <= 0,
        cross_int(a1, b1, pf) > 0,
        c == hull_cut(h, s, pf, h.len() as int, false),
        s + 1 <= c <= h.len(),
        forall|j: int| c <= j < h.len() ==> under(h[c - 1], pf, #[trigger] h[j]),
    ensures
        chain_covers(h.subrange(0, c).push(pf), s, fl.push(pf)),
{
    let h1 = h.subrange(0, c).push(pf);
    let fl1 = fl.push(pf);
    assert(h1[s] == h[s]);
    assert(h1.last() == pf);
    reveal(chain_covers);
    assert forall|i: int| 0 <= i < fl1.len() && fl1[i].0 >= h1[s].0 implies #[trigger] fl1[i].0 >= h1.last().0 || covered(
        h1,
        s,
        fl1[i],
    ) by {
        if i < fl.len() {
            assert(fl1[i] == fl[i]);
            let f = fl[i];
            lemma_cover_push_one(fl, a1, b1, h, s, pf, i, c);
            if exists|k: int|
                s <= k && k + 1 < c && #[trigger] h[k].0 <= f.0 && f.0 <= h[k + 1].0 && cross_int(h[k], h[k + 1], f) <= 0 {
                let k = choose|k: int|
                    s <= k && k + 1 < c && #[trigger] h[k].0 <= f.0 && f.0 <= h[k + 1].0 && cross_int(h[k], h[k + 1], f) <= 0;
                assert(h1[k] == h[k] && h1[k + 1] == h[k + 1]);
                assert(h1[k].0 <= f.0 && f.0 <= h1[k + 1].0 && cross_int(h1[k], h1[k + 1], f) <= 0);
            } else {
                assert(h1[c - 1] == h[c - 1] && h1[c] == pf);
                assert(h1[c - 1].0 <= f.0 && f.0 <= h1[c].0 && cross_int(h1[c - 1], h1[c], f) <= 0);
            }
        }
    }
}


/// The floor points of a chain cut at `c` with the floor point `pf` pushed
/// are floor points of the floor points with `pf`.
proof fn lemma_floor_push(h: Seq<(int, int)>, s: int, fl: Seq<(int, int)>, pf: (int, int), c: int)
    requires
        from_floor(h, s, fl),
        0 <= s < c <= h.len(),
    ensures
        from_floor(h.subrange(0, c).push(pf), s, fl.push(pf)),
{
    let h1 = h.subrange(0, c).push(pf);
    let fl1 = fl.push(pf);
    assert(from_floor(h1, s, fl1)) by {
        assert forall|k: int| s <= k < h1.len() implies fl1.contains(#[trigger] h1[k]) by {
            if k < c {
                let j = lemma_floor_at(h, s, fl, k);
                assert(h1[k] == h[k]);
                assert(fl1[j] == fl[j]);
                assert(h1[k] == fl1[j]);
            } else {
                assert(h1[k] == pf);
                assert(fl1[fl.len() as int] == pf);
            }
        }
    }
}


/// A concave chain cut at `c`, where the last two kept points turn the
/// chain's way with `pf`, stays a concave chain with `pf` pushed.
#[verifier::spinoff_prover]
proof fn lemma_chain_push(h: Seq<(int, int)>, s: int, pf: (int, int), c: int)
    requires
        concave_chain(h, s),
        s < c <= h.len(),
        forall|j: int| s <= j < h.len() ==> (#[trigger] h[j]).0 < pf.0,
        c - s >= 2 ==> cross_int(h[c - 2], h[c - 1], pf) < 0,
    ensures
        concave_chain(h.subrange(0, c).push(pf), s),
{
    let h1 = h.subrange(0, c).push(pf);
    reveal(concave_chain);
    assert forall|j: int, k: int| s <= j < k < h1.len() implies (#[trigger] h1[j]).0 < (#[trigger] h1[k]).0 by {
        assert(h1[j] == h[j]);
        if k < c {
            assert(h1[k] == h[k]);
        }
    }
    assert forall|j: int| s <= j < h1.len() - 2 implies cross_int(#[trigger] h1[j], h1[j + 1], h1[j + 2]) < 0 by {
        assert(h1[j] == h[j] && h1[j + 1] == h[j + 1]);
        if j + 2 < c {
            assert(h1[j + 2] == h[j + 2]);
        }
    }
}

/// Cutting a chain from `s` before a floor point `pf` that is strictly
/// above the line `(a1, b1)` ending at the chain's end, and pushing `pf`,
/// gives a chain that starts where the old one did, ends at `pf`, and covers
/// the floor points with `pf`.
#[verifier::spinoff_prover]
#[verifier::rlimit(60)]
proof fn lemma_cover_push(fl: Seq<(int, int)>, a1: (int, int), b1: (int, int), h: Seq<(int, int)>, s: int, pf: (int, int))
    requires
        concave_chain(h, s),
        from_floor(h, s, fl),
        chain_covers(h, s, fl),
        h.last() == b1,
        forall|a: int, b: int| 0 <= a < b < fl.len() ==> (#[trigger] fl[a]).0 < (#[trigger] fl[b]).0,
        forall|a: int| 0 <= a < fl.len() ==> (#[trigger] fl[a]).0 < pf.0,
        a1.0 < b1.0,
        forall|a: int| 0 <= a < fl.len() ==> cross_int(a1, b1, #[trigger] fl[a]) <= 0,
        cross_int(a1, b1, pf) > 0,
    ensures
        ({
            let c = hull_cut(h, s, pf, h.len() as int, false);
            let h1 = h.subrange(0, c).push(pf);
            &&& s < c <= h.len()
            &&& concave_chain(h1, s)
            &&& h1[s] == h[s]
            &&& h1.last() == pf
            &&& from_floor(h1, s, fl.push(pf))
            &&& chain_covers(h1, s, fl.push(pf))
        }),
{
    lemma_chain_left(h, s, fl, pf);
    let c = hull_cut(h, s, pf, h.len() as int, false);
    lemma_cut(h, s, pf, h.len() as int);
    let h1 = h.subrange(0, c).push(pf);
    let fl1 = fl.push(pf);
    lemma_chain_push(h, s, pf, c);
    lemma_floor_push(h, s, fl, pf, c);
    lemma_cover_push_all(fl, a1, b1, h, s, pf, c);
}


/// A floor point right of the whole chain leaves it covering the floor
/// points.
proof fn lemma_extend_floor(h: Seq<(int, int)>, s: int, fl: Seq<(int, int)>, pf: (int, int))
    requires
        0 <= s < h.len(),
        from_floor(h, s, fl),
        chain_covers(h, s, fl),
        h.last().0 < pf.0,
    ensures
        from_floor(h, s, fl.push(pf)),
        chain_covers(h, s, fl.push(pf)),
{
    let fl1 = fl.push(pf);
    assert(from_floor(h, s, fl1)) by {
        assert forall|k: int| s <= k < h.len() implies fl1.contains(#[trigger] h[k]) by {
            let j = lemma_floor_at(h, s, fl, k);
            assert(h[k] == fl1[j]);
        }
    }
    assert(chain_covers(h, s, fl1)) by {
        reveal(chain_covers);
        assert forall|i: int| 0 <= i < fl1.len() && fl1[i].0 >= h[s].0 implies #[trigger] fl1[i].0 >= h.last().0 || covered(
            h,
            s,
            fl1[i],
        ) by {
            if i < fl.len() {
                assert(fl1[i] == fl[i]);
                lemma_covers_at(h, s, fl, i);
            }
        }
    }
}

/// The scan never passes to a chain's last point when that point lies
/// directly below `q`: it scans as on the chain without it.
proof fn lemma_rise_end(h: Seq<(int, int)>, q: (int, int), i: int)
    requires
        0 <= i <= h.len() - 2,
        forall|j: int| i <= j < h.len() - 1 ==> (#[trigger] h[j]).0 < q.0,
        h.last().0 == q.0,
        h.last().1 < q.1,
    ensures
        first_rise(h, q, i) == first_rise(h.drop_last(), q, i),
    decreases h.len() - i,
{
    let h0 = h.drop_last();
    if i + 1 < h.len() - 1 {
        assert(h0[i] == h[i] && h0[i + 1] == h[i + 1]);
        lemma_rise_end(h, q, i + 1);
    } else {
        let a = h[i];
        let b = h.last();
        assert(h[i + 1] == b);
        lemma_slope_under(a, b, q);
        lemma_cross_from(b, q, a);
        let d = q.1 - b.1;
        let dx = a.0 - q.0;
        assert(cross_int(b, q, a) == d * (-dx)) by (nonlinear_arith)
            requires
                b.0 == q.0,
                d == q.1 - b.1,
                dx == a.0 - q.0,
        ;
        assert(d * (-dx) > 0) by (nonlinear_arith)
            requires
                d > 0,
                dx < 0,
        ;
        assert(slope_less(diff(h[i], q), diff(h[i + 1], q)));
    }
}

/// The tangent from `q` to a chain whose last point lies directly below `q`:
/// the scan stops before that point, and every covered floor point, and
/// every one left of the chain's start, lies on or below the line from the
/// stopping point through `q`.
#[verifier::spinoff_prover]
#[verifier::rlimit(60)]
proof fn lemma_tangent_end(h: Seq<(int, int)>, s: int, q: (int, int), f: (int, int), a2: (int, int), b2: (int, int))
    requires
        0 <= s < h.len() - 1,
        h[s] == a2,
        forall|j: int| s <= j < h.len() - 1 ==> (#[trigger] h[j]).0 < h[j + 1].0,
        forall|j: int| s <= j < h.len() - 2 ==> cross_int(#[trigger] h[j], h[j + 1], h[j + 2]) < 0,
        forall|j: int| s <= j < h.len() - 1 ==> (#[trigger] h[j]).0 < q.0,
        h.last().0 == q.0,
        h.last().1 < q.1,
        f.0 < q.0,
        a2.0 < b2.0,
        cross_int(a2, b2, f) <= 0,
        cross_int(a2, b2, a2) == 0,
        cross_int(a2, b2, q) < 0,
        f.0 >= a2.0 ==> covered(h, s, f),
    ensures
        s <= first_rise(h, q, s) < h.len() - 1,
        under(h[first_rise(h, q, s)], q, f),
{
    let h0 = h.drop_last();
    lemma_rise_end(h, q, s);
    let m = first_rise(h, q, s);
    assert forall|j: int| s <= j < h0.len() implies (#[trigger] h0[j]).0 < q.0 by {
        assert(h0[j] == h[j]);
    }
    lemma_rise(h0, q, s);
    assert(h0[m] == h[m]);
    let hm = h[m];
    assert forall|j: int| s <= j < h0.len() - 1 implies (#[trigger] h0[j]).0 < h0[j + 1].0 by {
        assert(h0[j] == h[j] && h0[j + 1] == h[j + 1]);
    }
    assert forall|j: int| s <= j < h0.len() - 2 implies cross_int(#[trigger] h0[j], h0[j + 1], h0[j + 2]) < 0 by {
        assert(h0[j] == h[j] && h0[j + 1] == h[j + 1] && h0[j + 2] == h[j + 2]);
    }
    if f.0 < a2.0 {
        lemma_below_from_line_point(a2, b2, a2, q, f);
        assert(under(hm, q, h0[s]));
        lemma_under_trans(hm, a2, f, q);
    } else {
        let k = choose|k: int|
            s <= k < h.len() - 1 && #[trigger] h[k].0 <= f.0 && f.0 <= h[k + 1].0 && cross_int(h[k], h[k + 1], f) <= 0;
        if k <= m {
            assert(under(hm, q, h0[k]));
        } else {
            lemma_after_rise(h0, s, q, m, k);
        }
        assert(h0[k] == h[k]);
        if k + 1 < h.len() - 1 {
            lemma_under_segment(h[k], h[k + 1], f, q);
            if k + 1 <= m {
                assert(under(hm, q, h0[k + 1]));
            } else {
                lemma_after_rise(h0, s, q, m, k + 1);
            }
            assert(h0[k + 1] == h[k + 1]);
            if under(h[k], q, f) {
                lemma_under_trans(hm, h[k], f, q);
            } else {
                lemma_under_trans(hm, h[k + 1], f, q);
            }
        } else {
            lemma_under_last_segment(h[k], h.last(), f, q);
            lemma_under_trans(hm, h[k], f, q);
        }
    }
}


/// The line from a floor point `w` through the new ceiling point `pc`, which
/// keeps every floor point on or below it, keeps every point where it must
/// be: `pc` is strictly below the line `(a2, b2)` of largest slope and on or
/// above the line `(a1, b1)` of smallest slope.
proof fn lemma_new_line(
    fl: Seq<(int, int)>,
    cl: Seq<(int, int)>,
    a2: (int, int),
    b2: (int, int),
    a1: (int, int),
    b1: (int, int),
    j: int,
    pf: (int, int),
    pc: (int, int),
)
    requires
        stacked(fl, cl),
        feasible(a2, b2, fl, cl),
        feasible(a1, b1, fl, cl),
        0 <= j < fl.len(),
        pf.0 == pc.0,
        pf.1 <= pc.1,
        forall|i: int| 0 <= i < fl.len() ==> (#[trigger] fl[i]).0 < pf.0,
        cross_int(a1, b1, pc) >= 0,
        cross_int(a2, b2, pc) < 0,
        forall|i: int| 0 <= i < fl.len() ==> under(fl[j], pc, #[trigger] fl[i]),
    ensures
        feasible(fl[j], pc, fl.push(pf), cl.push(pc)),
{
    let w = fl[j];
    let fl1 = fl.push(pf);
    let cl1 = cl.push(pc);
    assert forall|i: int| 0 <= i < fl1.len() implies cross_int(w, pc, #[trigger] fl1[i]) <= 0 by {
        if i < fl.len() {
            assert(fl1[i] == fl[i]);
        } else {
            lemma_below_same_x(w, pc, pf);
        }
    }
    assert forall|i: int| 0 <= i < cl1.len() implies cross_int(w, pc, #[trigger] cl1[i]) >= 0 by {
        if i < cl.len() {
            let c = cl[i];
            assert(cl1[i] == c);
            assert(c.0 == fl[i].0);
            if c.0 <= w.0 {
                lemma_above_chord(a1, b1, w, pc, c);
            } else {
                lemma_above_chord(a2, b2, w, pc, c);
            }
        } else {
            assert(cross_int(w, pc, pc) == 0) by (nonlinear_arith);
        }
    }
}

/// One side's step when a point is taken, the tangent first: a new ceiling
/// point `pc` strictly below the line of largest slope moves the chain's
/// start to the tangent point from `pc`, which with `pc` makes the new line;
/// then a new floor point `pf` strictly above the line of smallest slope
/// joins the chain, which is cut from the new start, and the other side
/// gives the new line of smallest slope through `pf`.
pub proof fn lemma_step_tangent_first(
    fl: Seq<(int, int)>,
    cl: Seq<(int, int)>,
    a2: (int, int),
    b2: (int, int),
    a1: (int, int),
    b1: (int, int),
    h: Seq<(int, int)>,
    s: int,
    pf: (int, int),
    pc: (int, int),
)
    requires
        half(fl, cl, a2, b2, a1, b1, h, s),
        pf.0 == pc.0,
        pf.1 <= pc.1,
        forall|i: int| 0 <= i < fl.len() ==> (#[trigger] fl[i]).0 < pf.0,
        cross_int(a1, b1, pc) >= 0,
        cross_int(a2, b2, pf) <= 0,
    ensures
        ({
            let c1 = cross_int(a2, b2, pc) < 0;
            let c2 = cross_int(a1, b1, pf) > 0;
            let s1 = if c1 { first_rise(h, pc, s) } else { s };
            let h1 = if c2 { h.subrange(0, hull_cut(h, s1, pf, h.len() as int, false)).push(pf) } else { h };
            &&& s <= s1 < h.len()
            &&& side_core(fl.push(pf), cl.push(pc), if c1 { h[s1] } else { a2 }, if c1 { pc } else { b2 }, if c2 { pf } else { b1 }, h1, s1)
        }),
{
    let c1 = cross_int(a2, b2, pc) < 0;
    let c2 = cross_int(a1, b1, pf) > 0;
    let fl1 = fl.push(pf);
    let cl1 = cl.push(pc);
    lemma_chain_facts(h, s);
    lemma_chain_left(h, s, fl, pf);
    assert(cross_int(a2, b2, a2) == 0) by (nonlinear_arith);
    assert(cross_int(a1, b1, b1) == 0) by (nonlinear_arith);
    let s1 = if c1 { first_rise(h, pc, s) } else { s };
    let a2n = if c1 { h[s1] } else { a2 };
    let b2n = if c1 { pc } else { b2 };
    if c1 {
        lemma_rise(h, pc, s);
        let j = lemma_floor_at(h, s, fl, s1);
        assert forall|i: int| 0 <= i < fl.len() implies under(fl[j], pc, #[trigger] fl[i]) by {
            if fl[i].0 >= a2.0 {
                lemma_covers_at(h, s, fl, i);
            }
            lemma_tangent(h, s, pc, fl[i], a2, b2, a1, b1);
        }
        lemma_new_line(fl, cl, a2, b2, a1, b1, j, pf, pc);
    } else {
        assert forall|i: int| 0 <= i < fl1.len() implies cross_int(a2, b2, #[trigger] fl1[i]) <= 0 by {
            if i < fl.len() {
                assert(fl1[i] == fl[i]);
            }
        }
        assert forall|i: int| 0 <= i < cl1.len() implies cross_int(a2, b2, #[trigger] cl1[i]) >= 0 by {
            if i < cl.len() {
                assert(cl1[i] == cl[i]);
            }
        }
    }
    if !c2 {
        assert forall|i: int| 0 <= i < fl1.len() implies cross_int(a1, b1, #[trigger] fl1[i]) <= 0 by {
            if i < fl.len() {
                assert(fl1[i] == fl[i]);
            }
        }
        assert forall|i: int| 0 <= i < cl1.len() implies cross_int(a1, b1, #[trigger] cl1[i]) >= 0 by {
            if i < cl.len() {
                assert(cl1[i] == cl[i]);
            }
        }
    }
    lemma_cover_advance(h, s, s1, fl);
    if c2 {
        lemma_cover_push(fl, a1, b1, h, s1, pf);
    } else {
        lemma_extend_floor(h, s1, fl, pf);
    }
    assert(stacked(fl1, cl1)) by {
        assert forall|i: int, j: int| 0 <= i < j < fl1.len() implies (#[trigger] fl1[i]).0 < (#[trigger] fl1[j]).0 by {
            assert(fl1[i] == fl[i]);
            if j < fl.len() {
                assert(fl1[j] == fl[j]);
            }
        }
        assert forall|i: int| 0 <= i < fl1.len() implies (#[trigger] cl1[i]).0 == fl1[i].0 && fl1[i].1 <= cl1[i].1 by {
            if i < fl.len() {
                assert(fl1[i] == fl[i] && cl1[i] == cl[i]);
            }
        }
    }
}


/// A point directly above `a` is strictly above any line from `a` to the
/// right.
proof fn lemma_above_vertical(a: (int, int), b: (int, int), p: (int, int))
    requires
        a.0 < b.0,
        p.0 == a.0,
        a.1 < p.1,
    ensures
        cross_int(a, b, p) > 0,
{
    let dx = b.0 - a.0;
    let dy = b.1 - a.1;
    let d = p.1 - a.1;
    assert(cross_int(a, b, p) == dx * d - dy * 0);
    assert(dx * d > 0) by (nonlinear_arith)
        requires
            dx > 0,
            d > 0,
    ;
}

/// Where the scan from `s` toward the new ceiling point `pc` stops on a
/// chain that may end directly below `pc`.
#[verifier::spinoff_prover]
proof fn lemma_scan_bounds(h1: Seq<(int, int)>, s: int, pc: (int, int), b2: (int, int), pushed: bool)
    requires
        concave_chain(h1, s),
        h1[s].0 < b2.0,
        cross_int(h1[s], b2, pc) < 0,
        pushed ==> h1.last().0 == pc.0 && h1.last().1 < pc.1,
        !pushed ==> h1.last().0 < pc.0,
    ensures
        s <= first_rise(h1, pc, s) < h1.len(),
        pushed ==> s < h1.len() - 1 && first_rise(h1, pc, s) < h1.len() - 1,
        h1[first_rise(h1, pc, s)].0 < pc.0,
        forall|j: int| s <= j < h1.len() - 1 ==> (#[trigger] h1[j]).0 < pc.0,
{
    lemma_chain_facts(h1, s);
    assert forall|j: int| s <= j < h1.len() - 1 implies (#[trigger] h1[j]).0 < pc.0 by {
        lemma_chain_x(h1, s, j, h1.len() - 1);
    }
    if pushed {
        if s == h1.len() - 1 {
            lemma_above_vertical(h1[s], b2, pc);
        }
        lemma_rise_end(h1, pc, s);
        let h0 = h1.drop_last();
        assert forall|j: int| s <= j < h0.len() implies (#[trigger] h0[j]).0 < pc.0 by {
            assert(h0[j] == h1[j]);
        }
        lemma_rise(h0, pc, s);
    } else {
        assert forall|j: int| s <= j < h1.len() implies (#[trigger] h1[j]).0 < pc.0 by {
            if j < h1.len() - 1 {
            }
        }
        lemma_rise(h1, pc, s);
    }
}

/// One floor point lies on or below the line from the scan's stopping point
/// through `pc`.
#[verifier::spinoff_prover]
proof fn lemma_tangent_point(
    fl1: Seq<(int, int)>,
    i: int,
    a2: (int, int),
    b2: (int, int),
    a1: (int, int),
    b1: (int, int),
    h1: Seq<(int, int)>,
    s: int,
    pc: (int, int),
    pushed: bool,
)
    requires
        concave_chain(h1, s),
        chain_covers(h1, s, fl1),
        h1[s] == a2,
        0 <= i < fl1.len(),
        fl1[i].0 < pc.0,
        a2.0 < b2.0,
        a1.0 < b1.0,
        cross_int(a2, b2, fl1[i]) <= 0,
        cross_int(a1, b1, fl1[i]) <= 0,
        cross_int(a2, b2, pc) < 0,
        cross_int(a1, b1, pc) >= 0,
        pushed ==> h1.last().0 == pc.0 && h1.last().1 < pc.1,
        !pushed ==> h1.last() == b1 && b1.0 < pc.0,
    ensures
        under(h1[first_rise(h1, pc, s)], pc, fl1[i]),
{
    lemma_chain_facts(h1, s);
    lemma_scan_bounds(h1, s, pc, b2, pushed);
    assert(cross_int(a2, b2, a2) == 0) by (nonlinear_arith);
    assert(cross_int(a1, b1, b1) == 0) by (nonlinear_arith);
    if fl1[i].0 >= a2.0 {
        lemma_covers_at(h1, s, fl1, i);
    }
    if pushed {
        lemma_tangent_end(h1, s, pc, fl1[i], a2, b2);
    } else {
        assert forall|j: int| s <= j < h1.len() implies (#[trigger] h1[j]).0 < pc.0 by {
            if j < h1.len() - 1 {
            }
        }
        lemma_tangent(h1, s, pc, fl1[i], a2, b2, a1, b1);
    }
}

/// After the chain took the new floor point (or not), the tangent from the
/// new ceiling point `pc`, strictly below the line of largest slope, makes
/// a new line that keeps every point where it must be.
#[verifier::spinoff_prover]
proof fn lemma_line_after_push(
    fl: Seq<(int, int)>,
    cl: Seq<(int, int)>,
    a2: (int, int),
    b2: (int, int),
    a1: (int, int),
    b1: (int, int),
    h1: Seq<(int, int)>,
    s: int,
    pf: (int, int),
    pc: (int, int),
    pushed: bool,
)
    requires
        stacked(fl, cl),
        feasible(a2, b2, fl, cl),
        feasible(a1, b1, fl, cl),
        concave_chain(h1, s),
        h1[s] == a2,
        from_floor(h1, s, fl.push(pf)),
        chain_covers(h1, s, fl.push(pf)),
        pf.0 == pc.0,
        pf.1 <= pc.1,
        forall|i: int| 0 <= i < fl.len() ==> (#[trigger] fl[i]).0 < pf.0,
        cross_int(a1, b1, pc) >= 0,
        cross_int(a2, b2, pc) < 0,
        pushed ==> h1.last() == pf && pf.1 < pc.1,
        !pushed ==> h1.last() == b1 && b1.0 < pf.0,
    ensures
        s <= first_rise(h1, pc, s) < h1.len(),
        feasible(h1[first_rise(h1, pc, s)], pc, fl.push(pf), cl.push(pc)),
{
    let fl1 = fl.push(pf);
    let s1 = first_rise(h1, pc, s);
    lemma_scan_bounds(h1, s, pc, b2, pushed);
    assert forall|i: int| 0 <= i < fl.len() implies under(h1[s1], pc, #[trigger] fl[i]) by {
        assert(fl1[i] == fl[i]);
        lemma_tangent_point(fl1, i, a2, b2, a1, b1, h1, s, pc, pushed);
    }
    let j = lemma_floor_at(h1, s, fl1, s1);
    assert(j < fl.len());
    assert(fl1[j] == fl[j]);
    lemma_new_line(fl, cl, a2, b2, a1, b1, j, pf, pc);
}

/// One side's step when a point is taken, the chain first: a new floor point
/// `pf` strictly above the line of smallest slope joins the chain, which is
/// cut from its start, and the other side gives the new line of smallest
/// slope through `pf`; then a new ceiling point `pc` strictly below the line
/// of largest slope moves the chain's start to the tangent point from `pc`
/// on the new chain, which with `pc` makes the new line.
#[verifier::spinoff_prover]
#[verifier::rlimit(60)]
pub proof fn lemma_step_push_first(
    fl: Seq<(int, int)>,
    cl: Seq<(int, int)>,
    a2: (int, int),
    b2: (int, int),
    a1: (int, int),
    b1: (int, int),
    h: Seq<(int, int)>,
    s: int,
    pf: (int, int),
    pc: (int, int),
)
    requires
        half(fl, cl, a2, b2, a1, b1, h, s),
        pf.0 == pc.0,
        pf.1 <= pc.1,
        forall|i: int| 0 <= i < fl.len() ==> (#[trigger] fl[i]).0 < pf.0,
        cross_int(a1, b1, pc) >= 0,
        cross_int(a2, b2, pf) <= 0,
        cross_int(a2, b2, pc) < 0 && cross_int(a1, b1, pf) > 0 ==> pf.1 < pc.1,
    ensures
        ({
            let c1 = cross_int(a2, b2, pc) < 0;
            let c2 = cross_int(a1, b1, pf) > 0;
            let h1 = if c2 { h.subrange(0, hull_cut(h, s, pf, h.len() as int, false)).push(pf) } else { h };
            let s1 = if c1 { first_rise(h1, pc, s) } else { s };
            &&& s <= s1 < h1.len()
            &&& side_core(fl.push(pf), cl.push(pc), if c1 { h1[s1] } else { a2 }, if c1 { pc } else { b2 }, if c2 { pf } else { b1 }, h1, s1)
        }),
{
    let c1 = cross_int(a2, b2, pc) < 0;
    let c2 = cross_int(a1, b1, pf) > 0;
    let fl1 = fl.push(pf);
    let cl1 = cl.push(pc);
    lemma_chain_facts(h, s);
    lemma_chain_left(h, s, fl, pf);
    let h1 = if c2 { h.subrange(0, hull_cut(h, s, pf, h.len() as int, false)).push(pf) } else { h };
    if c2 {
        lemma_cover_push(fl, a1, b1, h, s, pf);
    } else {
        lemma_extend_floor(h, s, fl, pf);
    }
    assert(h1[s] == a2);
    let s1 = if c1 { first_rise(h1, pc, s) } else { s };
    if c1 {
        lemma_line_after_push(fl, cl, a2, b2, a1, b1, h1, s, pf, pc, c2);
    } else {
        assert forall|i: int| 0 <= i < fl1.len() implies cross_int(a2, b2, #[trigger] fl1[i]) <= 0 by {
            if i < fl.len() {
                assert(fl1[i] == fl[i]);
            }
        }
        assert forall|i: int| 0 <= i < cl1.len() implies cross_int(a2, b2, #[trigger] cl1[i]) >= 0 by {
            if i < cl.len() {
                assert(cl1[i] == cl[i]);
            }
        }
    }
    if !c2 {
        assert forall|i: int| 0 <= i < fl1.len() implies cross_int(a1, b1, #[trigger] fl1[i]) <= 0 by {
            if i < fl.len() {
                assert(fl1[i] == fl[i]);
            }
        }
        assert forall|i: int| 0 <= i < cl1.len() implies cross_int(a1, b1, #[trigger] cl1[i]) >= 0 by {
            if i < cl.len() {
                assert(cl1[i] == cl[i]);
            }
        }
    }
    assert(stacked(fl1, cl1)) by {
        assert forall|i: int, j: int| 0 <= i < j < fl1.len() implies (#[trigger] fl1[i]).0 < (#[trigger] fl1[j]).0 by {
            assert(fl1[i] == fl[i]);
            if j < fl.len() {
                assert(fl1[j] == fl[j]);
            }
        }
        assert forall|i: int| 0 <= i < fl1.len() implies (#[trigger] cl1[i]).0 == fl1[i].0 && fl1[i].1 <= cl1[i].1 by {
            if i < fl.len() {
                assert(fl1[i] == fl[i] && cl1[i] == cl[i]);
            }
        }
    }
    lemma_cover_advance(h1, s, s1, fl1);
}



/// A point reflected across the key axis.
pub open spec fn refl(p: (int, int)) -> (int, int) {
    (p.0, -p.1)
}

/// The points reflected across the key axis.
pub open spec fn refl_seq(h: Seq<(int, int)>) -> Seq<(int, int)> {
    h.map_values(|p: (int, int)| refl(p))
}

/// The lower shifts of points by `e` (not below zero).
pub open spec fn floors(ps: Seq<(int, int)>, e: int) -> Seq<(int, int)> {
    ps.map_values(|p: (int, int)| (p.0, sat_sub(p.1, e)))
}

/// The upper shifts of points by `e`.
pub open spec fn ceilings(ps: Seq<(int, int)>, e: int) -> Seq<(int, int)> {
    ps.map_values(|p: (int, int)| (p.0, p.1 + e))
}

proof fn lemma_refl_cross(a: (int, int), b: (int, int), c: (int, int))
    ensures
        cross_int(refl(a), refl(b), refl(c)) == -cross_int(a, b, c),
{
    assert(cross_int(refl(a), refl(b), refl(c)) == -cross_int(a, b, c)) by (nonlinear_arith);
}

/// Reflection swaps floor and ceiling points and keeps a line feasible.
proof fn lemma_refl_feasible(a: (int, int), b: (int, int), fl: Seq<(int, int)>, cl: Seq<(int, int)>)
    ensures
        feasible(a, b, fl, cl) == feasible(refl(a), refl(b), refl_seq(cl), refl_seq(fl)),
{
    assert forall|i: int| 0 <= i < cl.len() implies cross_int(refl(a), refl(b), #[trigger] refl_seq(cl)[i]) == -cross_int(a, b, cl[i]) by {
        lemma_refl_cross(a, b, cl[i]);
    }
    assert forall|i: int| 0 <= i < fl.len() implies cross_int(refl(a), refl(b), #[trigger] refl_seq(fl)[i]) == -cross_int(a, b, fl[i]) by {
        lemma_refl_cross(a, b, fl[i]);
    }
    if feasible(refl(a), refl(b), refl_seq(cl), refl_seq(fl)) {
        assert forall|i: int| 0 <= i < fl.len() implies cross_int(a, b, #[trigger] fl[i]) <= 0 by {
            assert(cross_int(refl(a), refl(b), refl_seq(fl)[i]) >= 0);
        }
        assert forall|i: int| 0 <= i < cl.len() implies cross_int(a, b, #[trigger] cl[i]) >= 0 by {
            assert(cross_int(refl(a), refl(b), refl_seq(cl)[i]) <= 0);
        }
    }
    if feasible(a, b, fl, cl) {
        assert forall|i: int| 0 <= i < refl_seq(cl).len() implies cross_int(refl(a), refl(b), #[trigger] refl_seq(cl)[i]) <= 0 by {
            assert(cross_int(a, b, cl[i]) >= 0);
        }
        assert forall|i: int| 0 <= i < refl_seq(fl).len() implies cross_int(refl(a), refl(b), #[trigger] refl_seq(fl)[i]) >= 0 by {
            assert(cross_int(a, b, fl[i]) <= 0);
        }
    }
}

/// Scanning for a fall is scanning the reflection for a rise.
proof fn lemma_refl_fall(h: Seq<(int, int)>, p: (int, int), i: int)
    ensures
        first_fall(h, p, i) == first_rise(refl_seq(h), refl(p), i),
    decreases h.len() - i,
{
    let rh = refl_seq(h);
    if 0 <= i && i + 1 < h.len() {
        let u = diff(h[i], p);
        let v = diff(h[i + 1], p);
        assert(diff(rh[i], refl(p)) == (u.0, -u.1));
        assert(diff(rh[i + 1], refl(p)) == (v.0, -v.1));
        assert(slope_less((u.0, -u.1), (v.0, -v.1)) == slope_less(v, u)) by (nonlinear_arith);
        lemma_refl_fall(h, p, i + 1);
    }
}

/// Cutting an upper hull is cutting the reflected lower hull.
proof fn lemma_refl_cut(h: Seq<(int, int)>, start: int, p: (int, int), e: int)
    ensures
        hull_cut(h, start, p, e, true) == hull_cut(refl_seq(h), start, refl(p), e, false),
    decreases e,
{
    let rh = refl_seq(h);
    if 2 <= e <= h.len() {
        lemma_refl_cross(h[e - 2], h[e - 1], p);
        assert(rh[e - 2] == refl(h[e - 2]) && rh[e - 1] == refl(h[e - 1]));
        lemma_refl_cut(h, start, p, e - 1);
    }
}

/// The state of a model is consistent with the segment it stands for: for
/// one point, its corners 0 and 1 are the point's upper and lower shifts and
/// each hull holds one of them; for more, both sides are consistent, the
/// lower side over the lower and upper shifts with the lower hull, and the
/// upper side, reflected, with the upper hull; with no error, both lines
/// coincide.
pub open spec fn model_inv(st: ModelState, e: int) -> bool {
    let ps = st.0;
    let r = st.1;
    let fl = floors(ps, e);
    let cl = ceilings(ps, e);
    &&& e >= 0
    &&& r.len() == 4
    &&& forall|i: int| 0 <= i < ps.len() ==> (#[trigger] ps[i]).1 >= 0
    &&& ps.len() == 1 ==> {
        &&& r[0] == cl[0]
        &&& r[1] == fl[0]
        &&& st.2 == seq![fl[0]]
        &&& st.3 == seq![cl[0]]
        &&& st.4 == 0
        &&& st.5 == 0
    }
    &&& ps.len() >= 2 ==> {
        &&& half(fl, cl, r[1], r[3], r[0], r[2], st.2, st.4)
        &&& half(refl_seq(cl), refl_seq(fl), refl(r[0]), refl(r[2]), refl(r[1]), refl(r[3]), refl_seq(st.3), st.5)
        &&& e == 0 ==> r[0] == r[1] && r[2] == r[3]
    }
}


proof fn lemma_vx_add_scalar(dx: int, dy: int, ex: int, ey: int)
    ensures
        dx * (ey + dy) - dy * (ex + dx) == dx * ey - dy * ex,
{
    lemma_mul_is_distributive_add(dx, ey, dy);
    lemma_mul_is_distributive_add(dy, ex, dx);
    lemma_mul_is_commutative(dx, dy);
}

/// The tests of the model on a new point, as cross products: the upper
/// shift `p1` below the line of largest slope, the lower shift `p2` above
/// the line of smallest slope, and the band's two exclusions.
proof fn lemma_conds(r: Seq<(int, int)>, p1: (int, int), p2: (int, int))
    requires
        r.len() == 4,
    ensures
        slope_less(diff(p1, r[1]), diff(r[3], r[1])) == (cross_int(r[1], r[3], p1) < 0),
        slope_less(diff(r[2], r[0]), diff(p2, r[0])) == (cross_int(r[0], r[2], p2) > 0),
        slope_less(diff(p1, r[2]), diff(r[2], r[0])) == (cross_int(r[0], r[2], p1) < 0),
        slope_less(diff(r[3], r[1]), diff(p2, r[3])) == (cross_int(r[1], r[3], p2) > 0),
{
    let d2 = diff(r[2], r[0]);
    let e1 = diff(p1, r[2]);
    lemma_vx_add_scalar(d2.0, d2.1, e1.0, e1.1);
    assert(cross_int(r[0], r[2], p1) == d2.0 * (e1.1 + d2.1) - d2.1 * (e1.0 + d2.0));
    let d3 = diff(r[3], r[1]);
    let e2 = diff(p2, r[3]);
    lemma_vx_add_scalar(d3.0, d3.1, e2.0, e2.1);
    assert(cross_int(r[1], r[3], p2) == d3.0 * (e2.1 + d3.1) - d3.1 * (e2.0 + d3.0));
    lemma_mul_is_commutative(d2.1, e1.0);
    lemma_mul_is_commutative(d2.0, e1.1);
    lemma_mul_is_commutative(d3.1, e2.0);
    lemma_mul_is_commutative(d3.0, e2.1);
    let u = diff(p1, r[1]);
    lemma_mul_is_commutative(u.1, d3.0);
    lemma_mul_is_commutative(u.0, d3.1);
    let v = diff(p2, r[0]);
    lemma_mul_is_commutative(d2.1, v.0);
    lemma_mul_is_commutative(d2.0, v.1);
}

proof fn lemma_vertical(a: (int, int), b: (int, int), p: (int, int))
    requires
        a.0 < b.0,
        p.0 == a.0,
    ensures
        p.1 >= a.1 ==> cross_int(a, b, p) >= 0,
        p.1 <= a.1 ==> cross_int(a, b, p) <= 0,
{
    let dx = b.0 - a.0;
    let dy = b.1 - a.1;
    let d = p.1 - a.1;
    assert(cross_int(a, b, p) == dx * d - dy * 0);
    assert(d >= 0 ==> dx * d >= 0) by (nonlinear_arith)
        requires
            dx > 0,
    ;
    assert(d <= 0 ==> dx * d <= 0) by (nonlinear_arith)
        requires
            dx > 0,
    ;
}

proof fn lemma_vertical_end(w: (int, int), q: (int, int), c: (int, int))
    requires
        w.0 < q.0,
        c.0 == q.0,
        c.1 >= q.1,
    ensures
        cross_int(w, q, c) >= 0,
{
    let dx = q.0 - w.0;
    let d = c.1 - q.1;
    assert(cross_int(w, q, c) == dx * d) by (nonlinear_arith)
        requires
            c.0 == q.0,
            dx == q.0 - w.0,
            d == c.1 - q.1,
    ;
    assert(dx * d >= 0) by (nonlinear_arith)
        requires
            dx > 0,
            d >= 0,
    ;
}

/// Two points, each a floor point below a ceiling point, make a consistent
/// side: the lines from the first floor point to the second ceiling point and
/// from the first ceiling point to the second floor point, and the chain of
/// the two floor points.
proof fn lemma_two_points(f0: (int, int), c0: (int, int), f1: (int, int), c1: (int, int))
    requires
        f0.0 == c0.0,
        f1.0 == c1.0,
        f0.0 < f1.0,
        f0.1 <= c0.1,
        f1.1 <= c1.1,
    ensures
        half(seq![f0, f1], seq![c0, c1], f0, c1, c0, f1, seq![f0, f1], 0),
{
    let fl = seq![f0, f1];
    let cl = seq![c0, c1];
    let h = seq![f0, f1];
    assert(cross_int(f0, c1, f0) == 0) by (nonlinear_arith);
    assert(cross_int(f0, c1, c1) == 0) by (nonlinear_arith);
    assert(cross_int(c0, f1, c0) == 0) by (nonlinear_arith);
    assert(cross_int(c0, f1, f1) == 0) by (nonlinear_arith);
    lemma_below_same_x(f0, c1, f1);
    lemma_vertical(f0, c1, c0);
    lemma_vertical(c0, f1, f0);
    lemma_vertical_end(c0, f1, c1);
    assert(feasible(f0, c1, fl, cl));
    assert(feasible(c0, f1, fl, cl));
    assert(concave_chain(h, 0)) by {
        reveal(concave_chain);
    }
    assert(fl.contains(h[0]) && fl.contains(h[1])) by {
        assert(fl[0] == h[0] && fl[1] == h[1]);
    }
    assert(from_floor(h, 0, fl));
    assert(chain_covers(h, 0, fl)) by {
        reveal(chain_covers);
        assert(h[0].0 <= f0.0 && f0.0 <= h[1].0 && cross_int(h[0], h[1], f0) <= 0) by {
            assert(cross_int(f0, f1, f0) == 0) by (nonlinear_arith);
        }
        assert(covered(h, 0, f0));
    }
}


proof fn lemma_cut_bound(h: Seq<(int, int)>, start: int, p: (int, int), e: int, upper: bool)
    requires
        e >= 0,
    ensures
        0 <= hull_cut(h, start, p, e, upper) <= e,
    decreases e,
{
    if 2 <= e <= h.len() && e - start >= 2 && (if upper {
        cross_int(h[e - 2], h[e - 1], p) <= 0
    } else {
        cross_int(h[e - 2], h[e - 1], p) >= 0
    }) {
        lemma_cut_bound(h, start, p, e - 1, upper);
    }
}

/// A point that the model takes keeps its state consistent.
#[verifier::spinoff_prover]
#[verifier::rlimit(80)]
proof fn lemma_fed_taken(st: ModelState, x: int, y: int, e: int)
    requires
        model_inv(st, e),
        st.0.len() >= 2,
        x > st.0[st.0.len() - 1].0,
        y >= 0,
        !band_excludes(st.1, x, y, e),
    ensures
        model_inv(fed(st, x, y, e), e),
{
    let ps = st.0;
    let r = st.1;
    let lo = st.2;
    let up = st.3;
    let ls = st.4;
    let us = st.5;
    let n = ps.len();
    let p1 = (x, y + e);
    let p2 = (x, sat_sub(y, e));
    let fl = floors(ps, e);
    let cl = ceilings(ps, e);
    let ps1 = ps.push((x, y));
    let fl1 = floors(ps1, e);
    let cl1 = ceilings(ps1, e);
    assert(p2.1 <= p1.1);
    assert(fl1 =~= fl.push(p2));
    assert(cl1 =~= cl.push(p1));
    lemma_conds(r, p1, p2);
    let c1 = cross_int(r[1], r[3], p1) < 0;
    let c2 = cross_int(r[0], r[2], p2) > 0;
    assert(cross_int(r[0], r[2], p1) >= 0);
    assert(cross_int(r[1], r[3], p2) <= 0);
    assert(stacked(fl, cl));
    assert forall|i: int| 0 <= i < fl.len() implies (#[trigger] fl[i]).0 < p2.0 by {
        if i < n - 1 {
            assert(fl[i].0 < fl[n - 1].0);
        }
    }
    // the lower side
    lemma_step_tangent_first(fl, cl, r[1], r[3], r[0], r[2], lo, ls, p2, p1);
    let m1 = first_rise(lo, p1, ls);
    let ls1 = if c1 { m1 } else { ls };
    let lo1 = if c2 { lo.subrange(0, hull_cut(lo, ls1, p2, lo.len() as int, false)).push(p2) } else { lo };
    let r1n = if c1 { lo[m1] } else { r[1] };
    let r3n = if c1 { p1 } else { r[3] };
    let r2n = if c2 { p2 } else { r[2] };
    assert(side_core(fl1, cl1, r1n, r3n, r2n, lo1, ls1));
    // the upper side, reflected
    let rfl = refl_seq(cl);
    let rcl = refl_seq(fl);
    let rp1 = refl(p1);
    let rp2 = refl(p2);
    lemma_refl_cross(r[0], r[2], p2);
    lemma_refl_cross(r[1], r[3], p1);
    lemma_refl_cross(r[1], r[3], p2);
    lemma_refl_cross(r[0], r[2], p1);
    assert(rp1.1 <= rp2.1);
    if c1 && c2 {
        if e == 0 {
            assert(r[0] == r[1] && r[2] == r[3]);
            assert(p1 == p2);
            assert(false);
        }
        assert(rp1.1 < rp2.1);
    }
    assert forall|i: int| 0 <= i < rfl.len() implies (#[trigger] rfl[i]).0 < rp1.0 by {
        assert(rfl[i].0 == cl[i].0);
        assert(cl[i].0 == fl[i].0);
        assert(fl[i].0 < p2.0);
    }
    let rup = refl_seq(up);
    lemma_step_push_first(rfl, rcl, refl(r[0]), refl(r[2]), refl(r[1]), refl(r[3]), rup, us, rp1, rp2);
    let up1 = if c1 { up.subrange(0, hull_cut(up, us, p1, up.len() as int, true)).push(p1) } else { up };
    let rup1 = if c1 { rup.subrange(0, hull_cut(rup, us, rp1, rup.len() as int, false)).push(rp1) } else { rup };
    if c1 {
        lemma_refl_cut(up, us, p1, up.len() as int);
        lemma_cut_bound(up, us, p1, up.len() as int, true);
        let c = hull_cut(up, us, p1, up.len() as int, true);
        assert(rup.len() == up.len());
        assert forall|k: int| 0 <= k < up1.len() implies #[trigger] refl_seq(up1)[k] == rup1[k] by {
            if k < c {
                assert(up1[k] == up[k]);
                assert(rup1[k] == rup[k]);
            }
        }
        assert(refl_seq(up1) =~= rup1);
    }
    assert(refl_seq(up1) == rup1);
    let m0 = first_fall(up1, p2, us);
    lemma_refl_fall(up1, p2, us);
    assert(first_rise(rup1, rp2, us) == m0);
    assert(c2 == (cross_int(refl(r[0]), refl(r[2]), rp2) < 0));
    assert(c1 == (cross_int(refl(r[1]), refl(r[3]), rp1) > 0));
    lemma_chain_range(rup, us);
    if c2 {
        assert(us <= m0 < rup1.len());
        assert(rup1.len() == up1.len());
        assert(0 <= m0 < up1.len());
        assert(refl_seq(up1)[m0] == refl(up1[m0]));
        assert(rup1[m0] == refl(up1[m0]));
    }
    let us1 = if c2 { m0 } else { us };
    let r0n = if c2 { up1[m0] } else { r[0] };
    assert(side_core(refl_seq(cl1), refl_seq(fl1), refl(r0n), refl(r2n), refl(r3n), refl_seq(up1), us1)) by {
        assert(refl_seq(cl1) =~= rfl.push(rp1));
        assert(refl_seq(fl1) =~= rcl.push(rp2));
    }
    // both lines of smallest slope, from the other side
    lemma_refl_feasible(r0n, r2n, fl1, cl1);
    lemma_refl_feasible(r1n, r3n, fl1, cl1);
    let f = fed(st, x, y, e);
    assert(f.0 == ps1);
    assert(f.1 =~= seq![r0n, r1n, r2n, r3n]);
    assert(f.2 == lo1);
    assert(f.3 == up1);
    assert(f.4 == ls1);
    assert(f.5 == us1);
    if e == 0 {
        assert(!c1 && !c2);
    }
    assert forall|i: int| 0 <= i < ps1.len() implies (#[trigger] ps1[i]).1 >= 0 by {
        if i < n {
            assert(ps1[i] == ps[i]);
        }
    }
}


/// Feeding a point with a rank of at least zero keeps a model's state
/// consistent.
pub proof fn lemma_fed_keeps(st: ModelState, x: int, y: int, e: int)
    requires
        model_inv(st, e),
        y >= 0,
    ensures
        model_inv(fed(st, x, y, e), e),
{
    let ps = st.0;
    let r = st.1;
    let n = ps.len();
    let p1 = (x, y + e);
    let p2 = (x, sat_sub(y, e));
    let f = fed(st, x, y, e);
    if n == 0 {
        assert(f.1.len() == 4);
        assert(floors(f.0, e)[0] == p2);
        assert(ceilings(f.0, e)[0] == p1);
        assert(f.0[0].1 >= 0);
    } else if x <= ps[n - 1].0 {
    } else if n == 1 {
        let w0 = floors(ps, e)[0];
        let u0 = ceilings(ps, e)[0];
        assert(ps[0].1 >= 0);
        assert(w0.1 <= u0.1);
        assert(p2.1 <= p1.1);
        lemma_two_points(w0, u0, p2, p1);
        lemma_two_points(refl(u0), refl(w0), refl(p1), refl(p2));
        let ps1 = f.0;
        assert(ps1 =~= ps.push((x, y)));
        assert(floors(ps1, e) =~= seq![w0, p2]);
        assert(ceilings(ps1, e) =~= seq![u0, p1]);
        assert(refl_seq(floors(ps1, e)) =~= seq![refl(w0), refl(p2)]);
        assert(refl_seq(ceilings(ps1, e)) =~= seq![refl(u0), refl(p1)]);
        assert(f.1 =~= seq![u0, w0, p2, p1]);
        assert(f.2 =~= seq![w0, p2]);
        assert(f.3 =~= seq![u0, p1]);
        assert(refl_seq(f.3) =~= seq![refl(u0), refl(p1)]);
        assert forall|i: int| 0 <= i < ps1.len() implies (#[trigger] ps1[i]).1 >= 0 by {
            if i == 0 {
                assert(ps1[0] == ps[0]);
            }
        }
    } else if band_excludes(r, x, y, e) {
        assert(f.0.len() == 0);
    } else {
        lemma_fed_taken(st, x, y, e);
    }
}

/// The point `p` lies within `e` ranks of the line of the corners `rect`:
/// between its lower and upper shifts at the key, for the line from corner 1
/// to corner 3; for a single point, whose corners 1 and 3 coincide, the
/// rank of corner 1 lies between them.
pub open spec fn within(rect: Seq<(int, int)>, p: (int, int), e: int) -> bool {
    let dx = rect[3].0 - rect[1].0;
    let dy = rect[3].1 - rect[1].1;
    let on_line = rect[1].1 * dx + dy * (p.0 - rect[1].0);
    if dx > 0 {
        sat_sub(p.1, e) * dx <= on_line && on_line <= (p.1 + e) * dx
    } else {
        sat_sub(p.1, e) <= rect[1].1 && rect[1].1 <= p.1 + e
    }
}

/// Every point of `pts` lies within `e` ranks of the line of `rect`.
pub open spec fn fits_segment(rect: Seq<(int, int)>, pts: Seq<(int, int)>, e: int) -> bool {
    forall|i: int| 0 <= i < pts.len() ==> within(rect, #[trigger] pts[i], e)
}

proof fn lemma_within_from_cross(a: (int, int), b: (int, int), f: (int, int), c: (int, int))
    requires
        a.0 < b.0,
        cross_int(a, b, f) <= 0,
        cross_int(a, b, c) >= 0,
        f.0 == c.0,
    ensures
        f.1 * (b.0 - a.0) <= a.1 * (b.0 - a.0) + (b.1 - a.1) * (f.0 - a.0),
        a.1 * (b.0 - a.0) + (b.1 - a.1) * (f.0 - a.0) <= c.1 * (b.0 - a.0),
{
    let dx = b.0 - a.0;
    let dy = b.1 - a.1;
    assert(cross_int(a, b, f) == dx * (f.1 - a.1) - dy * (f.0 - a.0));
    assert(cross_int(a, b, c) == dx * (c.1 - a.1) - dy * (c.0 - a.0));
    lemma_mul_is_distributive_sub(dx, f.1, a.1);
    lemma_mul_is_distributive_sub(dx, c.1, a.1);
    lemma_mul_is_commutative(dx, f.1);
    lemma_mul_is_commutative(dx, c.1);
    lemma_mul_is_commutative(dx, a.1);
}

/// The points of a consistent model's segment lie within the error of the
/// segment's line.
pub proof fn lemma_model_fits(st: ModelState, e: int)
    requires
        model_inv(st, e),
    ensures
        fits_segment(segment_corners(st), st.0, e),
{
    let ps = st.0;
    let r = st.1;
    let rect = segment_corners(st);
    if ps.len() == 1 {
        assert(ps[0].1 >= 0);
        assert forall|i: int| 0 <= i < ps.len() implies within(rect, #[trigger] ps[i], e) by {
            assert(i == 0);
            assert(rect[3] == r[1] && rect[1] == r[1]);
        }
    } else if ps.len() >= 2 {
        let fl = floors(ps, e);
        let cl = ceilings(ps, e);
        assert(rect == r);
        assert(feasible(r[1], r[3], fl, cl));
        assert forall|i: int| 0 <= i < ps.len() implies within(rect, #[trigger] ps[i], e) by {
            assert(fl[i] == (ps[i].0, sat_sub(ps[i].1, e)));
            assert(cl[i] == (ps[i].0, ps[i].1 + e));
            lemma_within_from_cross(r[1], r[3], fl[i], cl[i]);
        }
    }
}

/// The points of the segments of a segmentation of `kr` with error `e`,
/// reading from point `i` on, the model being in state `st`: for each
/// segment, the points the model held when it was closed.
pub open spec fn seg_points<K: crate::traits::StaticBounded>(kr: Seq<(K, usize)>, e: int, st: ModelState, i: int) -> Seq<
    Seq<(int, int)>,
>
    decreases kr.len() - i,
{
    if i >= kr.len() {
        seq![st.0]
    } else {
        let x = adjusted_key(kr, i);
        if takes(st, x, i, e) {
            seg_points(kr, e, fed(st, x, i, e), i + 1)
        } else {
            let st1 = fed(st, x, i, e);
            seq![st.0] + seg_points(kr, e, fed(st1, x, i, e), i + 1)
        }
    }
}

/// The points of each segment of the segmentation of `kr` with error `e`,
/// in order: pairs of a point's adjusted key and its position.
pub open spec fn segmentation_points<K: crate::traits::StaticBounded>(kr: Seq<(K, usize)>, e: int) -> Seq<Seq<(int, int)>> {
    seg_points(kr, e, fed(start_state(), adjusted_key(kr, 0), 0, e), 1)
}

proof fn lemma_seg_fits<K: crate::traits::StaticBounded>(kr: Seq<(K, usize)>, e: int, st: ModelState, i: int)
    requires
        model_inv(st, e),
        i >= 0,
    ensures
        seg_points(kr, e, st, i).len() == PGMSegmentation::seg_rects(kr, e, st, i).len(),
        forall|k: int|
            0 <= k < seg_points(kr, e, st, i).len() ==> fits_segment(
                #[trigger] PGMSegmentation::seg_rects(kr, e, st, i)[k],
                seg_points(kr, e, st, i)[k],
                e,
            ),
    decreases kr.len() - i,
{
    if i >= kr.len() {
        lemma_model_fits(st, e);
    } else {
        let x = adjusted_key(kr, i);
        lemma_fed_keeps(st, x, i, e);
        let st1 = fed(st, x, i, e);
        if takes(st, x, i, e) {
            lemma_seg_fits(kr, e, st1, i + 1);
        } else {
            lemma_fed_keeps(st1, x, i, e);
            lemma_seg_fits(kr, e, fed(st1, x, i, e), i + 1);
            let n = st.0.len();
            lemma_model_fits(st, e);
            if n >= 1 && x <= st.0[n - 1].0 {
                assert(st1 == st);
            } else {
                assert(n >= 2 && band_excludes(st.1, x, i, e));
                assert(st1.0.len() == 0);
                assert(segment_corners(st1) == segment_corners(st));
            }
            let pr = seq![st.0] + seg_points(kr, e, fed(st1, x, i, e), i + 1);
            let rr = seq![segment_corners(st1)] + PGMSegmentation::seg_rects(kr, e, fed(st1, x, i, e), i + 1);
            assert forall|k: int| 0 <= k < pr.len() implies fits_segment(#[trigger] rr[k], pr[k], e) by {
                if k > 0 {
                    assert(rr[k] == PGMSegmentation::seg_rects(kr, e, fed(st1, x, i, e), i + 1)[k - 1]);
                    assert(pr[k] == seg_points(kr, e, fed(st1, x, i, e), i + 1)[k - 1]);
                }
            }
        }
    }
}

/// The law of the segmentation: every point of each segment of the
/// segmentation of `kr` with error `e` lies within `e` ranks of the
/// segment's line, the line from its corner 1 to its corner 3 (for a single
/// point, the rank of its corner 1 lies within `e` of the point's).
pub proof fn lemma_segmentation_fits<K: crate::traits::StaticBounded>(kr: Seq<(K, usize)>, e: int)
    requires
        e >= 0,
    ensures
        segmentation_points(kr, e).len() == PGMSegmentation::segmentation_rects(kr, e).len(),
        forall|k: int|
            0 <= k < segmentation_points(kr, e).len() ==> fits_segment(
                #[trigger] PGMSegmentation::segmentation_rects(kr, e)[k],
                segmentation_points(kr, e)[k],
                e,
            ),
{
    let st0 = start_state();
    assert(model_inv(st0, e));
    lemma_fed_keeps(st0, adjusted_key(kr, 0), 0, e);
    lemma_seg_fits(kr, e, fed(st0, adjusted_key(kr, 0), 0, e), 1);
}

} // verus!
