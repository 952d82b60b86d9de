//! What the classes of two segments mean, in terms of the points that lie on
//! both: segments are apart where there is none, overlap where there are two,
//! cross where each one's ends lie strictly on both sides of the other, and
//! touch otherwise.

use vstd::prelude::*;

use crate::clean::Vertex;
use crate::validate::{
    boxed, class_of, collapsed, doubled_midpoint, first_point, high, last_point, locates, low,
    measures, pair_class, pairs_of, point_le, segment, sorted_pair, spots, spots_are, standing,
    total_degenerate, total_pairs, turn, Bad, Class, Kind, Loc, Segment,
};

verus! {

/// Whether the point at `s / d` of the way along `p` is the point at `t / d` of
/// the way along `q`.
pub open spec fn common_point(p: Segment, q: Segment, s: int, t: int, d: int) -> bool {
    &&& 0 <= s <= d
    &&& 0 <= t <= d
    &&& d > 0
    &&& d * p.0.0 + s * (p.1.0 - p.0.0) == d * q.0.0 + t * (q.1.0 - q.0.0)
    &&& d * p.0.1 + s * (p.1.1 - p.0.1) == d * q.0.1 + t * (q.1.1 - q.0.1)
}

/// Whether some point lies on both segments.
pub open spec fn meet(p: Segment, q: Segment) -> bool {
    exists|s: int, t: int, d: int| common_point(p, q, s, t, d)
}

/// Whether two different points lie on both segments.
pub open spec fn share_a_stretch(p: Segment, q: Segment) -> bool {
    exists|s: int, t: int, d: int, u: int, v: int, e: int|
        #![trigger common_point(p, q, s, t, d), common_point(p, q, u, v, e)]
        common_point(p, q, s, t, d) && common_point(p, q, u, v, e) && (s * e * (p.1.0 - p.0.0) != u
            * d * (p.1.0 - p.0.0) || s * e * (p.1.1 - p.0.1) != u * d * (p.1.1 - p.0.1))
}

/// Whether two segments properly cross: the ends of each lie strictly on
/// opposite sides of the line through the other.
pub open spec fn properly_cross(p: Segment, q: Segment) -> bool {
    let (px, py) = (p.1.0 - p.0.0, p.1.1 - p.0.1);
    let (qx, qy) = (q.1.0 - q.0.0, q.1.1 - q.0.1);
    let a = px * (q.0.1 - p.0.1) - py * (q.0.0 - p.0.0);
    let b = px * (q.1.1 - p.0.1) - py * (q.1.0 - p.0.0);
    let c = qx * (p.0.1 - q.0.1) - qy * (p.0.0 - q.0.0);
    let d = qx * (p.1.1 - q.0.1) - qy * (p.1.0 - q.0.0);
    (a < 0 < b || b < 0 < a) && (c < 0 < d || d < 0 < c)
}

/// How the four turns of two segments depend on each other.
proof fn lemma_turns(p: Segment, q: Segment)
    ensures
        ({
            let (px, py) = (p.1.0 - p.0.0, p.1.1 - p.0.1);
            let (qx, qy) = (q.1.0 - q.0.0, q.1.1 - q.0.1);
            let (wx, wy) = (q.0.0 - p.0.0, q.0.1 - p.0.1);
            let n = px * qy - py * qx;
            &&& turn(p.0, p.1, q.0) == px * wy - py * wx
            &&& turn(p.0, p.1, q.1) == px * wy - py * wx + n
            &&& turn(q.0, q.1, p.0) == qy * wx - qx * wy
            &&& turn(q.0, q.1, p.1) == qy * wx - qx * wy - n
        }),
{
    let (px, py) = (p.1.0 - p.0.0, p.1.1 - p.0.1);
    let (qx, qy) = (q.1.0 - q.0.0, q.1.1 - q.0.1);
    let (wx, wy) = (q.0.0 - p.0.0, q.0.1 - p.0.1);
    assert(q.1.0 - p.0.0 == wx + qx && q.1.1 - p.0.1 == wy + qy);
    assert(p.1.0 - q.0.0 == px - wx && p.1.1 - q.0.1 == py - wy);
    assert(p.0.0 - q.0.0 == -wx && p.0.1 - q.0.1 == -wy);
    assert(px * (wy + qy) - py * (wx + qx) == px * wy - py * wx + (px * qy - py * qx))
        by (nonlinear_arith);
    assert(qx * (-wy) - qy * (-wx) == qy * wx - qx * wy) by (nonlinear_arith);
    assert(qx * (py - wy) - qy * (px - wx) == qy * wx - qx * wy - (px * qy - py * qx))
        by (nonlinear_arith);
}

/// A common point fixes where it lies along each segment.
proof fn lemma_common(
    px: int,
    py: int,
    qx: int,
    qy: int,
    wx: int,
    wy: int,
    s: int,
    t: int,
    d: int,
)
    requires
        s * px == d * wx + t * qx,
        s * py == d * wy + t * qy,
    ensures
        d * (px * wy - py * wx) == -t * (px * qy - py * qx),
        d * (qy * wx - qx * wy) == s * (px * qy - py * qx),
{
    assert(d * (px * wy - py * wx) == px * (d * wy) - py * (d * wx)) by (nonlinear_arith);
    lemma_cancel(px, py, qx, qy, s, t);
    assert(d * (qy * wx - qx * wy) == qy * (d * wx) - qx * (d * wy)) by (nonlinear_arith);
    assert(qy * (s * px - t * qx) == s * (px * qy) - t * (qx * qy)) by (nonlinear_arith);
    assert(qx * (s * py - t * qy) == s * (py * qx) - t * (qx * qy)) by (nonlinear_arith);
    assert(s * (px * qy - py * qx) == s * (px * qy) - s * (py * qx)) by (nonlinear_arith);
}

/// The part along the first direction drops out of a cross product with it.
proof fn lemma_cancel(px: int, py: int, qx: int, qy: int, s: int, t: int)
    ensures
        px * (s * py - t * qy) - py * (s * px - t * qx) == -t * (px * qy - py * qx),
{
    assert(px * (s * py - t * qy) == s * (px * py) - t * (px * qy)) by (nonlinear_arith);
    assert(py * (s * px - t * qx) == s * (px * py) - t * (py * qx)) by (nonlinear_arith);
    assert(-t * (px * qy - py * qx) == -(t * (px * qy)) + t * (py * qx)) by (nonlinear_arith);
}

/// A common point in terms of steps.
proof fn lemma_steps(p: Segment, q: Segment, s: int, t: int, d: int)
    ensures
        common_point(p, q, s, t, d) == (0 <= s <= d && 0 <= t <= d && d > 0 && s * (p.1.0 - p.0.0)
            == d * (q.0.0 - p.0.0) + t * (q.1.0 - q.0.0) && s * (p.1.1 - p.0.1) == d * (q.0.1
            - p.0.1) + t * (q.1.1 - q.0.1)),
{
    assert(d * (q.0.0 - p.0.0) == d * q.0.0 - d * p.0.0) by (nonlinear_arith);
    assert(d * (q.0.1 - p.0.1) == d * q.0.1 - d * p.0.1) by (nonlinear_arith);
}

/// A product of positives has the sign of the other factor.
proof fn lemma_sign_of_product(d: int, a: int, t: int, n: int)
    requires
        d > 0,
        0 <= t,
        d * a == t * n,
    ensures
        n > 0 ==> a >= 0,
        n < 0 ==> a <= 0,
        n == 0 ==> a == 0,
        a == 0 && n != 0 ==> t == 0,
{
    assert(n > 0 ==> a >= 0) by (nonlinear_arith)
        requires
            d > 0,
            0 <= t,
            d * a == t * n,
    ;
    assert(n < 0 ==> a <= 0) by (nonlinear_arith)
        requires
            d > 0,
            0 <= t,
            d * a == t * n,
    ;
    assert(n == 0 ==> a == 0) by (nonlinear_arith)
        requires
            d > 0,
            d * a == t * n,
    ;
    assert(a == 0 && n != 0 ==> t == 0) by (nonlinear_arith)
        requires
            d * a == t * n,
    ;
}

/// What lies part of a way lies between its ends.
proof fn lemma_between(d: int, s: int, v: int, w: int)
    requires
        d > 0,
        0 <= s <= d,
        s * v == d * w,
    ensures
        (0 <= w <= v) || (v <= w <= 0),
{
    if v >= 0 {
        assert(0 <= w <= v) by (nonlinear_arith)
            requires
                d > 0,
                0 <= s <= d,
                s * v == d * w,
                v >= 0,
        ;
    } else {
        assert(v <= w <= 0) by (nonlinear_arith)
            requires
                d > 0,
                0 <= s <= d,
                s * v == d * w,
                v < 0,
        ;
    }
}

/// A coordinate part of a way along a range lies in it, `d` times over.
proof fn lemma_in_range(d: int, s: int, a0: int, a1: int, lo: int, hi: int)
    requires
        d > 0,
        0 <= s <= d,
        lo <= a0 <= hi,
        lo <= a1 <= hi,
    ensures
        d * lo <= d * a0 + s * (a1 - a0) <= d * hi,
{
    assert(d * lo <= d * a0 + s * (a1 - a0) <= d * hi) by (nonlinear_arith)
        requires
            d > 0,
            0 <= s <= d,
            lo <= a0 <= hi,
            lo <= a1 <= hi,
    ;
}

/// Segments that meet are not apart.
proof fn lemma_meeting_is_seen(p: Segment, q: Segment, s: int, t: int, d: int)
    requires
        common_point(p, q, s, t, d),
    ensures
        class_of(p, q) != Class::Apart,
{
    reveal(class_of);
    lemma_turns(p, q);
    lemma_steps(p, q, s, t, d);
    let (px, py) = (p.1.0 - p.0.0, p.1.1 - p.0.1);
    let (qx, qy) = (q.1.0 - q.0.0, q.1.1 - q.0.1);
    let (wx, wy) = (q.0.0 - p.0.0, q.0.1 - p.0.1);
    let n = px * qy - py * qx;
    lemma_common(px, py, qx, qy, wx, wy, s, t, d);
    let (a, c) = (px * wy - py * wx, qy * wx - qx * wy);
    assert(d * (-a) == t * n) by (nonlinear_arith)
        requires
            d * a == -t * n,
    ;
    lemma_sign_of_product(d, -a, t, n);
    lemma_sign_of_product(d, c, s, n);
    assert(d * (a + n) == (d - t) * n) by (nonlinear_arith)
        requires
            d * a == -t * n,
    ;
    lemma_sign_of_product(d, a + n, d - t, n);
    assert(d * (n - c) == (d - s) * n) by (nonlinear_arith)
        requires
            d * c == s * n,
    ;
    lemma_sign_of_product(d, n - c, d - s, n);
    if n == 0 {
        // all on one line
        let upright = p.0.0 == p.1.0 && q.0.0 == q.1.0;
        let (a0, a1) = if upright { (p.0.1, p.1.1) } else { (p.0.0, p.1.0) };
        let (b0, b1) = if upright { (q.0.1, q.1.1) } else { (q.0.0, q.1.0) };
        let from = high(low(a0, a1), low(b0, b1));
        let to = low(high(a0, a1), high(b0, b1));
        let x = d * a0 + s * (a1 - a0);
        assert(x == d * b0 + t * (b1 - b0));
        lemma_in_range(d, s, a0 as int, a1 as int, low(a0, a1) as int, high(a0, a1) as int);
        lemma_in_range(d, t, b0 as int, b1 as int, low(b0, b1) as int, high(b0, b1) as int);
        assert(from <= to) by (nonlinear_arith)
            requires
                d > 0,
                d * from <= x,
                x <= d * to,
        ;
    } else if a == 0 {
        assert(t == 0);
        assert(0 * qx == 0 && 0 * qy == 0);
        lemma_between(d, s, px, wx);
        lemma_between(d, s, py, wy);
        assert(boxed(q.0, p.0, p.1));
    } else if a + n == 0 {
        assert(t == d);
        assert(d * wx + d * qx == d * (wx + qx)) by (nonlinear_arith);
        assert(d * wy + d * qy == d * (wy + qy)) by (nonlinear_arith);
        lemma_between(d, s, px, wx + qx);
        lemma_between(d, s, py, wy + qy);
        assert(boxed(q.1, p.0, p.1));
    } else if c == 0 {
        assert(s == 0);
        assert(t * qx == d * (-wx)) by (nonlinear_arith)
            requires
                0 * px == d * wx + t * qx,
        ;
        assert(t * qy == d * (-wy)) by (nonlinear_arith)
            requires
                0 * py == d * wy + t * qy,
        ;
        lemma_between(d, t, qx, -wx);
        lemma_between(d, t, qy, -wy);
        assert(boxed(p.0, q.0, q.1));
    } else if c - n == 0 {
        assert(s == d);
        assert(t * qx == d * (px - wx)) by (nonlinear_arith)
            requires
                d * px == d * wx + t * qx,
        ;
        assert(t * qy == d * (py - wy)) by (nonlinear_arith)
            requires
                d * py == d * wy + t * qy,
        ;
        lemma_between(d, t, qx, px - wx);
        lemma_between(d, t, qy, py - wy);
        assert(boxed(p.1, q.0, q.1));
    }
}

/// A vertex in the box of a segment and on its line lies on it: some part of
/// the way.
proof fn lemma_on_segment(vx: int, vy: int, wx: int, wy: int) -> (at: (int, int))
    requires
        vx * wy == vy * wx,
        (0 <= wx <= vx) || (vx <= wx <= 0),
        (0 <= wy <= vy) || (vy <= wy <= 0),
    ensures
        0 <= at.0 <= at.1,
        at.1 > 0,
        at.0 * vx == at.1 * wx,
        at.0 * vy == at.1 * wy,
{
    if vx > 0 {
        assert(wx * vx == vx * wx) by (nonlinear_arith);
        assert(wx * vy == vx * wy) by (nonlinear_arith)
            requires
                vx * wy == vy * wx,
        ;
        (wx, vx)
    } else if vx < 0 {
        assert((-wx) * vx == (-vx) * wx) by (nonlinear_arith);
        assert((-wx) * vy == (-vx) * wy) by (nonlinear_arith)
            requires
                vx * wy == vy * wx,
        ;
        (-wx, -vx)
    } else if vy > 0 {
        assert(wy * vy == vy * wy) by (nonlinear_arith);
        assert(wy * 0 == 0 && vy * 0 == 0) by (nonlinear_arith);
        (wy, vy)
    } else if vy < 0 {
        assert((-wy) * vy == (-vy) * wy) by (nonlinear_arith);
        assert((-wy) * 0 == 0 && (-vy) * 0 == 0) by (nonlinear_arith);
        (-wy, -vy)
    } else {
        (0, 1)
    }
}

/// Two ranges of one line, both of some width: at any coordinate in both lies a
/// common point.
proof fn lemma_at_coordinate(
    p0: int,
    px: int,
    py: int,
    q0: int,
    qx: int,
    qy: int,
    wy: int,
    c: int,
) -> (at: (int, int, int))
    requires
        px != 0,
        qx != 0,
        px * qy == py * qx,
        px * wy == py * (q0 - p0),
        (0 <= c - p0 <= px) || (px <= c - p0 <= 0),
        (0 <= c - q0 <= qx) || (qx <= c - q0 <= 0),
    ensures
        0 <= at.0 <= at.2,
        0 <= at.1 <= at.2,
        at.2 > 0,
        at.0 * px == at.2 * (q0 - p0) + at.1 * qx,
        at.0 * py == at.2 * wy + at.1 * qy,
        at.0 * px == at.2 * (c - p0),
{
    let (k, l) = (c - p0, c - q0);
    let g: int = if (px > 0) == (qx > 0) { 1 } else { -1 };
    let (s, t, d) = (k * qx * g, l * px * g, px * qx * g);
    assert(d > 0 && 0 <= s <= d && 0 <= t <= d) by (nonlinear_arith)
        requires
            px != 0,
            qx != 0,
            (0 <= k <= px) || (px <= k <= 0),
            (0 <= l <= qx) || (qx <= l <= 0),
            g == (if (px > 0) == (qx > 0) { 1int } else { -1 }),
            s == k * qx * g,
            t == l * px * g,
            d == px * qx * g,
    ;
    assert(s * px == d * k) by (nonlinear_arith)
        requires
            s == k * qx * g,
            d == px * qx * g,
    ;
    assert(t * qx == d * l) by (nonlinear_arith)
        requires
            t == l * px * g,
            d == px * qx * g,
    ;
    assert(d * k == d * (k - l) + d * l) by (nonlinear_arith);
    assert(k - l == q0 - p0);
    let m = qx * g;
    assert(s * py == m * (k * py)) by (nonlinear_arith)
        requires
            s == k * qx * g,
            m == qx * g,
    ;
    assert(d * wy == m * (px * wy)) by (nonlinear_arith)
        requires
            d == px * qx * g,
            m == qx * g,
    ;
    assert(t * qy == g * l * (px * qy)) by (nonlinear_arith)
        requires
            t == l * px * g,
    ;
    assert(g * l * (py * qx) == m * (l * py)) by (nonlinear_arith)
        requires
            m == qx * g,
    ;
    assert(m * (k * py) == m * (py * (k - l)) + m * (l * py)) by (nonlinear_arith);
    (s, t, d)
}

/// Segments that are not apart meet, if not both are single points.
proof fn lemma_seen_meet(p: Segment, q: Segment)
    requires
        class_of(p, q) != Class::Apart,
        p.0 != p.1 || q.0 != q.1 || p.0 == q.0,
    ensures
        meet(p, q),
        class_of(p, q) == Class::Overlap ==> share_a_stretch(p, q),
{
    reveal(class_of);
    lemma_turns(p, q);
    let (px, py) = (p.1.0 - p.0.0, p.1.1 - p.0.1);
    let (qx, qy) = (q.1.0 - q.0.0, q.1.1 - q.0.1);
    let (wx, wy) = (q.0.0 - p.0.0, q.0.1 - p.0.1);
    let n = px * qy - py * qx;
    let (a, c) = (px * wy - py * wx, qy * wx - qx * wy);
    if a == 0 && n == 0 && c == 0 {
        lemma_collinear_meet(p, q);
    } else if class_of(p, q) == Class::Cross {
        let g: int = if n > 0 { 1 } else { -1 };
        let (s, t, d) = (c * g, -a * g, n * g);
        assert(c * px == n * wx - a * qx) by (nonlinear_arith)
            requires
                n == px * qy - py * qx,
                a == px * wy - py * wx,
                c == qy * wx - qx * wy,
        ;
        assert(c * py == n * wy - a * qy) by (nonlinear_arith)
            requires
                n == px * qy - py * qx,
                a == px * wy - py * wx,
                c == qy * wx - qx * wy,
        ;
        assert(s * px == d * wx + t * qx && s * py == d * wy + t * qy) by (nonlinear_arith)
            requires
                g == 1 || g == -1,
                s == c * g,
                t == -a * g,
                d == n * g,
                c * px == n * wx - a * qx,
                c * py == n * wy - a * qy,
        ;
        if n > 0 {
            assert(s == c && t == -a && d == n) by (nonlinear_arith)
                requires
                    g == 1,
                    s == c * g,
                    t == -a * g,
                    d == n * g,
            ;
        } else {
            assert(s == -c && t == a && d == -n) by (nonlinear_arith)
                requires
                    g == -1,
                    s == c * g,
                    t == -a * g,
                    d == n * g,
            ;
        }
        lemma_steps(p, q, s, t, d);
        assert(common_point(p, q, s, t, d));
    } else if a == 0 && boxed(q.0, p.0, p.1) {
        let (s, d) = lemma_on_segment(px, py, wx, wy);
        lemma_steps(p, q, s, 0, d);
        assert(0 * qx == 0 && 0 * qy == 0);
        assert(common_point(p, q, s, 0, d));
    } else if a + n == 0 && boxed(q.1, p.0, p.1) {
        assert(px * (wy + qy) == py * (wx + qx)) by (nonlinear_arith)
            requires
                (px * wy - py * wx) + (px * qy - py * qx) == 0,
        ;
        let (s, d) = lemma_on_segment(px, py, wx + qx, wy + qy);
        lemma_steps(p, q, s, d, d);
        assert(d * wx + d * qx == d * (wx + qx)) by (nonlinear_arith);
        assert(d * wy + d * qy == d * (wy + qy)) by (nonlinear_arith);
        assert(common_point(p, q, s, d, d));
    } else if c == 0 && boxed(p.0, q.0, q.1) {
        assert(qx * (-wy) == qy * (-wx)) by (nonlinear_arith)
            requires
                qy * wx - qx * wy == 0,
        ;
        let (t, d) = lemma_on_segment(qx, qy, -wx, -wy);
        lemma_steps(p, q, 0, t, d);
        assert(d * (-wx) == -(d * wx) && d * (-wy) == -(d * wy)) by (nonlinear_arith);
        assert(0 * px == 0 && 0 * py == 0);
        assert(common_point(p, q, 0, t, d));
    } else {
        assert(c - n == 0 && boxed(p.1, q.0, q.1));
        assert(qx * (py - wy) == qy * (px - wx)) by (nonlinear_arith)
            requires
                (qy * wx - qx * wy) - (px * qy - py * qx) == 0,
        ;
        let (t, d) = lemma_on_segment(qx, qy, px - wx, py - wy);
        lemma_steps(p, q, d, t, d);
        assert(d * (px - wx) == d * px - d * wx) by (nonlinear_arith);
        assert(d * (py - wy) == d * py - d * wy) by (nonlinear_arith);
        assert(common_point(p, q, d, t, d));
    }
}

/// Segments on one line whose ranges meet have a point in common, and two where
/// the ranges share a stretch.
proof fn lemma_collinear_meet(p: Segment, q: Segment)
    requires
        turn(p.0, p.1, q.0) == 0,
        turn(p.0, p.1, q.1) == 0,
        turn(q.0, q.1, p.0) == 0,
        turn(q.0, q.1, p.1) == 0,
        class_of(p, q) != Class::Apart,
        p.0 != p.1 || q.0 != q.1 || p.0 == q.0,
    ensures
        meet(p, q),
        class_of(p, q) == Class::Overlap ==> share_a_stretch(p, q),
{
    reveal(class_of);
    lemma_turns(p, q);
    let (px, py) = (p.1.0 - p.0.0, p.1.1 - p.0.1);
    let (qx, qy) = (q.1.0 - q.0.0, q.1.1 - q.0.1);
    let (wx, wy) = (q.0.0 - p.0.0, q.0.1 - p.0.1);
    let n = px * qy - py * qx;
    let upright = px == 0 && qx == 0;
    let (a0, a1) = if upright { (p.0.1, p.1.1) } else { (p.0.0, p.1.0) };
    let (b0, b1) = if upright { (q.0.1, q.1.1) } else { (q.0.0, q.1.0) };
    let from = high(low(a0, a1), low(b0, b1)) as int;
    let to = low(high(a0, a1), high(b0, b1)) as int;
    assert(from <= to);
    if p.0 == p.1 && q.0 == q.1 {
        assert(common_point(p, q, 0, 0, 1));
    } else if upright {
        assert(wx == 0) by (nonlinear_arith)
            requires
                px == 0,
                qx == 0,
                py != 0 || qy != 0,
                px * wy - py * wx == 0,
                qy * wx - qx * wy == 0,
        ;
        if py != 0 && qy != 0 {
            assert(py * 0 == px * qy && 0 * qy == 0 && py * wx == px * wy && py * qx == 0)
                by (nonlinear_arith)
                requires
                    px == 0,
                    qx == 0,
                    wx == 0,
            ;
            let (s, t, d) = lemma_at_coordinate(
                p.0.1 as int,
                py,
                px,
                q.0.1 as int,
                qy,
                qx,
                wx,
                from,
            );
            lemma_steps(p, q, s, t, d);
            assert(common_point(p, q, s, t, d));
            let (u, v, e) = lemma_at_coordinate(
                p.0.1 as int,
                py,
                px,
                q.0.1 as int,
                qy,
                qx,
                wx,
                to,
            );
            lemma_steps(p, q, u, v, e);
            assert(common_point(p, q, u, v, e));
            if from < to {
                lemma_different(s, u, d, e, py, from - p.0.1, to - p.0.1);
            }
        } else if py == 0 {
            let (t, d) = lemma_on_segment(qx, qy, -wx, -wy);
            lemma_steps(p, q, 0, t, d);
            assert(d * (-wx) == -(d * wx) && d * (-wy) == -(d * wy)) by (nonlinear_arith);
            assert(0 * px == 0 && 0 * py == 0);
            assert(common_point(p, q, 0, t, d));
        } else {
            let (s, d) = lemma_on_segment(px, py, wx, wy);
            lemma_steps(p, q, s, 0, d);
            assert(0 * qx == 0 && 0 * qy == 0);
            assert(common_point(p, q, s, 0, d));
        }
    } else if px != 0 && qx != 0 {
        let (s, t, d) = lemma_at_coordinate(
            p.0.0 as int,
            px,
            py,
            q.0.0 as int,
            qx,
            qy,
            wy,
            from,
        );
        lemma_steps(p, q, s, t, d);
        assert(common_point(p, q, s, t, d));
        let (u, v, e) = lemma_at_coordinate(
            p.0.0 as int,
            px,
            py,
            q.0.0 as int,
            qx,
            qy,
            wy,
            to,
        );
        lemma_steps(p, q, u, v, e);
        assert(common_point(p, q, u, v, e));
        if from < to {
            lemma_different(s, u, d, e, px, from - p.0.0, to - p.0.0);
        }
    } else if px == 0 {
        // all on the line of `q`, so `p` is one point of it
        assert(py == 0) by (nonlinear_arith)
            requires
                px == 0,
                qx != 0,
                px * qy - py * qx == 0,
        ;
        assert(qx * (-wy) == qy * (-wx)) by (nonlinear_arith)
            requires
                qy * wx - qx * wy == 0,
        ;
        lemma_other_range(qx, qy, -wx, -wy);
        let (t, d) = lemma_on_segment(qx, qy, -wx, -wy);
        lemma_steps(p, q, 0, t, d);
        assert(d * (-wx) == -(d * wx) && d * (-wy) == -(d * wy)) by (nonlinear_arith);
        assert(0 * px == 0 && 0 * py == 0);
        assert(common_point(p, q, 0, t, d));
    } else {
        assert(qy == 0) by (nonlinear_arith)
            requires
                qx == 0,
                px != 0,
                px * qy - py * qx == 0,
        ;
        lemma_other_range(px, py, wx, wy);
        let (s, d) = lemma_on_segment(px, py, wx, wy);
        lemma_steps(p, q, s, 0, d);
        assert(0 * qx == 0 && 0 * qy == 0);
        assert(common_point(p, q, s, 0, d));
    }
}

/// On a line, a range in one coordinate is a range in the other.
proof fn lemma_other_range(vx: int, vy: int, wx: int, wy: int)
    requires
        vx != 0,
        vx * wy == vy * wx,
        (0 <= wx <= vx) || (vx <= wx <= 0),
    ensures
        (0 <= wy <= vy) || (vy <= wy <= 0),
{
    if vy >= 0 {
        assert(0 <= wy <= vy) by (nonlinear_arith)
            requires
                vx != 0,
                vy >= 0,
                vx * wy == vy * wx,
                (0 <= wx <= vx) || (vx <= wx <= 0),
        ;
    } else {
        assert(vy <= wy <= 0) by (nonlinear_arith)
            requires
                vx != 0,
                vy < 0,
                vx * wy == vy * wx,
                (0 <= wx <= vx) || (vx <= wx <= 0),
        ;
    }
}

/// Points at different coordinates are different.
proof fn lemma_different(s: int, u: int, d: int, e: int, v: int, k: int, l: int)
    requires
        d > 0,
        e > 0,
        s * v == d * k,
        u * v == e * l,
        k != l,
    ensures
        s * e * v != u * d * v,
{
    assert(s * e * v == e * (s * v)) by (nonlinear_arith);
    assert(u * d * v == d * (u * v)) by (nonlinear_arith);
    assert(e * (d * k) != d * (e * l)) by (nonlinear_arith)
        requires
            d > 0,
            e > 0,
            k != l,
    ;
}

/// Segments that share a stretch overlap.
proof fn lemma_stretch_is_seen(
    p: Segment,
    q: Segment,
    s: int,
    t: int,
    d: int,
    u: int,
    v: int,
    e: int,
)
    requires
        common_point(p, q, s, t, d),
        common_point(p, q, u, v, e),
        s * e * (p.1.0 - p.0.0) != u * d * (p.1.0 - p.0.0) || s * e * (p.1.1 - p.0.1) != u * d * (
        p.1.1 - p.0.1),
    ensures
        class_of(p, q) == Class::Overlap,
{
    reveal(class_of);
    lemma_turns(p, q);
    lemma_steps(p, q, s, t, d);
    lemma_steps(p, q, u, v, e);
    let (px, py) = (p.1.0 - p.0.0, p.1.1 - p.0.1);
    let (qx, qy) = (q.1.0 - q.0.0, q.1.1 - q.0.1);
    let (wx, wy) = (q.0.0 - p.0.0, q.0.1 - p.0.1);
    let n = px * qy - py * qx;
    let (a, c) = (px * wy - py * wx, qy * wx - qx * wy);
    lemma_common(px, py, qx, qy, wx, wy, s, t, d);
    lemma_common(px, py, qx, qy, wx, wy, u, v, e);
    assert(s * e != u * d);
    assert(n == 0) by (nonlinear_arith)
        requires
            d * c == s * n,
            e * c == u * n,
            s * e != u * d,
    {
        assert(e * (d * c) == d * (e * c)) by (nonlinear_arith);
        assert(e * (s * n) == (s * e) * n) by (nonlinear_arith);
        assert(d * (u * n) == (u * d) * n) by (nonlinear_arith);
        assert((s * e - u * d) * n == 0) by (nonlinear_arith)
            requires
                (s * e) * n == (u * d) * n,
        ;
    }
    assert(-t * n == 0 && s * n == 0) by (nonlinear_arith)
        requires
            n == 0,
    ;
    assert(a == 0 && c == 0) by (nonlinear_arith)
        requires
            d > 0,
            d * a == 0,
            d * c == 0,
    ;
    let upright = px == 0 && qx == 0;
    let (a0, a1) = if upright { (p.0.1, p.1.1) } else { (p.0.0, p.1.0) };
    let (b0, b1) = if upright { (q.0.1, q.1.1) } else { (q.0.0, q.1.0) };
    let from = high(low(a0, a1), low(b0, b1));
    let to = low(high(a0, a1), high(b0, b1));
    let (x, y) = (d * a0 + s * (a1 - a0), e * a0 + u * (a1 - a0));
    lemma_in_range(d, s, a0 as int, a1 as int, low(a0, a1) as int, high(a0, a1) as int);
    lemma_in_range(d, t, b0 as int, b1 as int, low(b0, b1) as int, high(b0, b1) as int);
    lemma_in_range(e, u, a0 as int, a1 as int, low(a0, a1) as int, high(a0, a1) as int);
    lemma_in_range(e, v, b0 as int, b1 as int, low(b0, b1) as int, high(b0, b1) as int);
    assert(a1 - a0 != 0) by {
        if a1 == a0 {
            if upright {
                assert(s * e * 0 == u * d * 0) by (nonlinear_arith);
            } else {
                assert(qx != 0);
                assert(py == 0) by (nonlinear_arith)
                    requires
                        px == 0,
                        qx != 0,
                        px * qy - py * qx == 0,
                ;
                assert(s * e * 0 == u * d * 0) by (nonlinear_arith);
            }
        }
    }
    let width = a1 - a0;
    assert(from < to) by {
        if from >= to {
            assert(from == to) by (nonlinear_arith)
                requires
                    d > 0,
                    from >= to,
                    d * from <= x,
                    x <= d * to,
            ;
            assert(e * x - d * y == (s * e - u * d) * width) by (nonlinear_arith)
                requires
                    x == d * a0 + s * width,
                    y == e * a0 + u * width,
            ;
            assert(e * x == d * y) by (nonlinear_arith)
                requires
                    x == d * from,
                    y == e * from,
            ;
            assert(false) by (nonlinear_arith)
                requires
                    (s * e - u * d) * width == 0,
                    s * e != u * d,
                    width != 0,
            ;
        }
    }
}

/// Segments cross exactly where the ends of each lie strictly on opposite sides
/// of the line through the other.
pub proof fn lemma_cross_means_properly(p: Segment, q: Segment)
    ensures
        (class_of(p, q) == Class::Cross) == properly_cross(p, q),
{
    reveal(class_of);
}

/// Segments are apart exactly where no point lies on both, and overlap exactly
/// where two different points do. (Two segments that are single points are told
/// apart by their boxes, before their class is asked for.)
pub proof fn lemma_classes_mean_common_points(p: Segment, q: Segment)
    requires
        p.0 != p.1 || q.0 != q.1 || p.0 == q.0,
    ensures
        (class_of(p, q) == Class::Apart) == !meet(p, q),
        (class_of(p, q) == Class::Overlap) == share_a_stretch(p, q),
{
    if class_of(p, q) != Class::Apart {
        lemma_seen_meet(p, q);
    }
    if meet(p, q) {
        let (s, t, d) = choose|s: int, t: int, d: int| common_point(p, q, s, t, d);
        lemma_meeting_is_seen(p, q, s, t, d);
    }
    if share_a_stretch(p, q) {
        let (s, t, d, u, v, e) = choose|s: int, t: int, d: int, u: int, v: int, e: int|
            #![trigger common_point(p, q, s, t, d), common_point(p, q, u, v, e)]
            common_point(p, q, s, t, d) && common_point(p, q, u, v, e) && (s * e * (p.1.0 - p.0.0)
                != u * d * (p.1.0 - p.0.0) || s * e * (p.1.1 - p.0.1) != u * d * (p.1.1
                - p.0.1));
        lemma_stretch_is_seen(p, q, s, t, d, u, v, e);
    }
}

/// Edge `i` of a ring, the last one back to the first vertex.
pub open spec fn edge(c: Seq<Vertex>, i: int) -> Segment {
    (c[i], if i + 1 == c.len() {
        c[0]
    } else {
        c[i + 1]
    })
}

/// Whether edges `i < j` of a ring of `n` follow each other.
pub open spec fn follow(i: int, j: int, n: int) -> bool {
    j == i + 1 || (i == 0 && j == n - 1)
}

/// The pairs of edges of a ring that do not follow each other, the lower first.
pub open spec fn distant_pairs(c: Seq<Vertex>) -> Set<(int, int)> {
    Set::new(|e: (int, int)| 0 <= e.0 < e.1 < c.len() && !follow(e.0, e.1, c.len() as int))
}

/// The distant pairs that properly cross.
pub open spec fn crossing_pairs(c: Seq<Vertex>) -> Set<(int, int)> {
    distant_pairs(c).filter(|e: (int, int)| properly_cross(edge(c, e.0), edge(c, e.1)))
}

/// The distant pairs that share a stretch.
pub open spec fn overlapping_pairs(c: Seq<Vertex>) -> Set<(int, int)> {
    distant_pairs(c).filter(|e: (int, int)| share_a_stretch(edge(c, e.0), edge(c, e.1)))
}

/// The distant pairs that meet in one point without crossing there.
pub open spec fn touching_pairs(c: Seq<Vertex>) -> Set<(int, int)> {
    distant_pairs(c).filter(
        |e: (int, int)|
            meet(edge(c, e.0), edge(c, e.1)) && !properly_cross(edge(c, e.0), edge(c, e.1))
                && !share_a_stretch(edge(c, e.0), edge(c, e.1)),
    )
}

/// Twice the signed area of a ring's first `n` edges against the origin.
pub open spec fn shoelace(c: Seq<Vertex>, n: int) -> int
    decreases n,
{
    if n <= 0 {
        0
    } else {
        let (a, b) = edge(c, n - 1);
        shoelace(c, n - 1) + (a.0 * b.1 - b.0 * a.1)
    }
}

/// Whether a ring has no area, counted with sign.
pub open spec fn flat(c: Seq<Vertex>) -> bool {
    c.len() < 3 || shoelace(c, c.len() as int) == 0
}

/// Whether a ring is searched for defects: it has an area, or crosses itself.
pub open spec fn searched(c: Seq<Vertex>) -> bool {
    !flat(c) || exists|e: (int, int)| #[trigger] crossing_pairs(c).contains(e)
}

/// How a pair of a ring's edges is classed says which points lie on both.
proof fn lemma_pair_means(c: Seq<Vertex>, i: int, j: int)
    requires
        0 <= i < j < c.len(),
    ensures
        ({
            let (p, q) = (edge(c, i), edge(c, j));
            if follow(i, j, c.len() as int) {
                pair_class(c, i, j) == Class::Apart
            } else {
                &&& (pair_class(c, i, j) == Class::Cross) == properly_cross(p, q)
                &&& (pair_class(c, i, j) == Class::Overlap) == share_a_stretch(p, q)
                &&& (pair_class(c, i, j) == Class::Apart) == !meet(p, q)
            }
        }),
{
    let n = c.len() as int;
    let (p, q) = (edge(c, i), edge(c, j));
    vstd::arithmetic::div_mod::lemma_small_mod((i + 1) as nat, n as nat);
    if j + 1 < n {
        vstd::arithmetic::div_mod::lemma_small_mod((j + 1) as nat, n as nat);
    } else {
        vstd::arithmetic::div_mod::lemma_mod_self_0(n);
    }
    assert(segment(c, i) == p && segment(c, j) == q);
    lemma_cross_means_properly(p, q);
    let boxes = low(q.0.0, q.1.0) <= high(p.0.0, p.1.0) && low(p.0.0, p.1.0) <= high(
        q.0.0,
        q.1.0,
    ) && low(q.0.1, q.1.1) <= high(p.0.1, p.1.1) && low(p.0.1, p.1.1) <= high(q.0.1, q.1.1);
    if boxes {
        lemma_classes_mean_common_points(p, q);
    } else {
        if meet(p, q) {
            let (s, t, d) = choose|s: int, t: int, d: int| common_point(p, q, s, t, d);
            lemma_common_in_boxes(p, q, s, t, d);
        }
        if share_a_stretch(p, q) {
            let (s, t, d, u, v, e) = choose|s: int, t: int, d: int, u: int, v: int, e: int|
                #![trigger common_point(p, q, s, t, d), common_point(p, q, u, v, e)]
                common_point(p, q, s, t, d) && common_point(p, q, u, v, e) && (s * e * (p.1.0
                    - p.0.0) != u * d * (p.1.0 - p.0.0) || s * e * (p.1.1 - p.0.1) != u * d * (
                p.1.1 - p.0.1));
            assert(meet(p, q));
        }
        if properly_cross(p, q) {
            assert(p.0 != p.1) by {
                if p.0 == p.1 {
                    assert(0 * (q.0.1 - p.0.1) - 0 * (q.0.0 - p.0.0) == 0) by (nonlinear_arith);
                }
            }
            lemma_seen_meet(p, q);
        }
    }
}

/// A common point lies in the boxes of both segments, so those meet.
proof fn lemma_common_in_boxes(p: Segment, q: Segment, s: int, t: int, d: int)
    requires
        common_point(p, q, s, t, d),
    ensures
        low(q.0.0, q.1.0) <= high(p.0.0, p.1.0),
        low(p.0.0, p.1.0) <= high(q.0.0, q.1.0),
        low(q.0.1, q.1.1) <= high(p.0.1, p.1.1),
        low(p.0.1, p.1.1) <= high(q.0.1, q.1.1),
{
    lemma_ranges_meet(p.0.0, p.1.0, q.0.0, q.1.0, s, t, d);
    lemma_ranges_meet(p.0.1, p.1.1, q.0.1, q.1.1, s, t, d);
}

proof fn lemma_ranges_meet(a0: i32, a1: i32, b0: i32, b1: i32, s: int, t: int, d: int)
    requires
        0 <= s <= d,
        0 <= t <= d,
        d > 0,
        d * a0 + s * (a1 - a0) == d * b0 + t * (b1 - b0),
    ensures
        low(b0, b1) <= high(a0, a1),
        low(a0, a1) <= high(b0, b1),
{
    lemma_in_range(d, s, a0 as int, a1 as int, low(a0, a1) as int, high(a0, a1) as int);
    lemma_in_range(d, t, b0 as int, b1 as int, low(b0, b1) as int, high(b0, b1) as int);
    let x = d * a0 + s * (a1 - a0);
    let (la, ha, lb, hb) = (low(a0, a1), high(a0, a1), low(b0, b1), high(b0, b1));
    assert(lb <= ha && la <= hb) by (nonlinear_arith)
        requires
            d > 0,
            d * la <= x,
            x <= d * ha,
            d * lb <= x,
            x <= d * hb,
    ;
}

/// The pairs that are counted are the pairs that meet that way.
proof fn lemma_pairs_mean(c: Seq<Vertex>)
    ensures
        pairs_of(c, Class::Cross) == crossing_pairs(c),
        pairs_of(c, Class::Overlap) == overlapping_pairs(c),
        pairs_of(c, Class::Touch) == touching_pairs(c),
{
    assert forall|e: (int, int)| true implies pairs_of(c, Class::Cross).contains(e)
        == crossing_pairs(c).contains(e) && pairs_of(c, Class::Overlap).contains(e)
        == overlapping_pairs(c).contains(e) && pairs_of(c, Class::Touch).contains(e)
        == touching_pairs(c).contains(e) by {
        if 0 <= e.0 < e.1 < c.len() {
            lemma_pair_means(c, e.0, e.1);
        }
    }
    assert(pairs_of(c, Class::Cross) =~= crossing_pairs(c));
    assert(pairs_of(c, Class::Overlap) =~= overlapping_pairs(c));
    assert(pairs_of(c, Class::Touch) =~= touching_pairs(c));
}

/// There are finitely many pairs below a bound.
proof fn lemma_pairs_finite(n: int)
    ensures
        Set::new(|e: (int, int)| 0 <= e.0 < e.1 < n).finite(),
    decreases n,
{
    let all = Set::new(|e: (int, int)| 0 <= e.0 < e.1 < n);
    if n <= 0 {
        assert(all =~= Set::empty());
    } else {
        lemma_pairs_finite(n - 1);
        let few = Set::new(|e: (int, int)| 0 <= e.0 < e.1 < n - 1);
        let row = vstd::set_lib::set_int_range(0, n - 1);
        vstd::set_lib::lemma_int_range(0, n - 1);
        let last = row.map(|i: int| (i, n - 1));
        row.lemma_map_finite(|i: int| (i, n - 1));
        assert forall|e: (int, int)| all.contains(e) implies few.union(last).contains(e) by {
            if e.1 == n - 1 {
                assert(row.contains(e.0));
                assert(last.contains((e.0, n - 1)));
            }
        }
        assert(all.subset_of(few.union(last)));
        vstd::set_lib::lemma_set_subset_finite(few.union(last), all);
    }
}

/// A ring is searched for defects unless it collapsed, and counts as degenerate
/// exactly where its shoelace area is zero or fewer than three vertices are left.
pub proof fn lemma_searched(c: Seq<Vertex>)
    ensures
        searched(c) == !collapsed(c),
        flat(c) == crate::clean::degenerate(c),
{
    lemma_pairs_mean(c);
    lemma_pairs_finite(c.len() as int);
    let all = Set::new(|e: (int, int)| 0 <= e.0 < e.1 < c.len());
    assert(crossing_pairs(c).subset_of(all));
    vstd::set_lib::lemma_set_subset_finite(all, crossing_pairs(c));
    lemma_shoelace(c, c.len() as int);
    if crossing_pairs(c).len() == 0 {
        crossing_pairs(c).lemma_len0_is_empty();
    } else {
        assert(exists|e: (int, int)| #[trigger] crossing_pairs(c).contains(e)) by {
            if !(exists|e: (int, int)| #[trigger] crossing_pairs(c).contains(e)) {
                assert(crossing_pairs(c) =~= Set::empty());
            }
        }
    }
}

proof fn lemma_shoelace(c: Seq<Vertex>, n: int)
    requires
        0 <= n <= c.len(),
    ensures
        shoelace(c, n) == crate::clean::area2(c, n),
    decreases n,
{
    if n > 0 {
        lemma_shoelace(c, n - 1);
    }
}

/// The crossings, overlaps, touches, flat rings and vertices of the first `n`
/// rings, counted.
pub open spec fn census(rings: Seq<Seq<Vertex>>, n: int) -> (nat, nat, nat, nat, nat)
    decreases n,
{
    if n <= 0 {
        (0, 0, 0, 0, 0)
    } else {
        let (c, before) = (rings[n - 1], census(rings, n - 1));
        let one: nat = if searched(c) {
            1
        } else {
            0
        };
        (
            before.0 + crossing_pairs(c).len(),
            before.1 + one * overlapping_pairs(c).len(),
            before.2 + one * touching_pairs(c).len(),
            before.3 + if flat(c) {
                1nat
            } else {
                0
            },
            before.4 + c.len(),
        )
    }
}

/// A measurement counts, over all rings, the pairs of edges that properly cross,
/// and over those that have an area or cross themselves the pairs that share a
/// stretch and those that only touch. Every ring without area is counted, and
/// every vertex.
pub proof fn lemma_measure_counts_what_meets(b: Bad, rings: Seq<Seq<Vertex>>, n: int)
    requires
        measures(b, rings, n),
        0 <= n <= rings.len(),
    ensures
        b.crossings == census(rings, n).0,
        b.overlaps == census(rings, n).1,
        b.touches == census(rings, n).2,
        b.degenerate == census(rings, n).3,
        b.verts == census(rings, n).4,
{
    lemma_census(rings, n);
}

proof fn lemma_census(rings: Seq<Seq<Vertex>>, n: int)
    requires
        0 <= n <= rings.len(),
    ensures
        total_pairs(rings, standing(rings), Class::Cross, n) == census(rings, n).0,
        total_pairs(rings, standing(rings), Class::Overlap, n) == census(rings, n).1,
        total_pairs(rings, standing(rings), Class::Touch, n) == census(rings, n).2,
        total_degenerate(rings, n) == census(rings, n).3,
        crate::snapped::total_verts(rings, n) == census(rings, n).4,
    decreases n,
{
    if n > 0 {
        lemma_census(rings, n - 1);
        let c = rings[n - 1];
        lemma_pairs_mean(c);
        lemma_searched(c);
        assert(standing(rings)(n - 1) == searched(c));
        if !searched(c) {
            assert(crossing_pairs(c) =~= Set::empty());
            assert(0 * overlapping_pairs(c).len() == 0 && 0 * touching_pairs(c).len() == 0)
                by (nonlinear_arith);
        }
    }
}

/// Whether a spot is where two edges of a ring meet as it says.
pub open spec fn is_spot(l: Loc, rings: Seq<Seq<Vertex>>) -> bool {
    let (i, j) = if l.first < l.second {
        (l.first as int, l.second as int)
    } else {
        (l.second as int, l.first as int)
    };
    &&& l.ring < rings.len()
    &&& 0 <= i < j < rings[l.ring as int].len()
    &&& !follow(i, j, rings[l.ring as int].len() as int)
    &&& match l.kind {
        Kind::Cross => properly_cross(
            edge(rings[l.ring as int], i),
            edge(rings[l.ring as int], j),
        ),
        Kind::Overlap => share_a_stretch(
            edge(rings[l.ring as int], i),
            edge(rings[l.ring as int], j),
        ),
    }
}

/// Whether spots name a pair of a ring's edges.
pub open spec fn spotted(locs: Seq<Loc>, r: int, kind: Kind, i: int, j: int) -> bool {
    exists|k: int|
        0 <= k < locs.len() && (#[trigger] locs[k]).ring == r && locs[k].kind == kind && ((
        locs[k].first == i && locs[k].second == j) || (locs[k].first == j && locs[k].second == i))
}

/// Every spot is where two edges of a ring cross or share a stretch, and every
/// crossing of a ring has one, as has every stretch shared within a ring that
/// has an area or crosses itself.
pub proof fn lemma_spots_are_where_edges_meet(locs: Seq<Loc>, rings: Seq<Seq<Vertex>>)
    requires
        spots_are(locs, rings, standing(rings), rings.len() as int),
        rings.len() <= usize::MAX,
    ensures
        forall|k: int| 0 <= k < locs.len() ==> is_spot(#[trigger] locs[k], rings),
        forall|r: int, i: int, j: int|
            0 <= r < rings.len() && 0 <= i < j < rings[r].len() && !follow(
                i,
                j,
                rings[r].len() as int,
            ) && #[trigger] properly_cross(edge(rings[r], i), edge(rings[r], j)) ==> spotted(
                locs,
                r,
                Kind::Cross,
                i,
                j,
            ),
        forall|r: int, i: int, j: int|
            0 <= r < rings.len() && searched(rings[r]) && 0 <= i < j < rings[r].len() && !follow(
                i,
                j,
                rings[r].len() as int,
            ) && #[trigger] share_a_stretch(edge(rings[r], i), edge(rings[r], j)) ==> spotted(
                locs,
                r,
                Kind::Overlap,
                i,
                j,
            ),
{
    lemma_spots_upto(locs, rings, rings.len() as int);
}

proof fn lemma_spots_upto(locs: Seq<Loc>, rings: Seq<Seq<Vertex>>, n: int)
    requires
        spots_are(locs, rings, standing(rings), n),
        0 <= n <= rings.len() <= usize::MAX,
    ensures
        forall|k: int| 0 <= k < locs.len() ==> is_spot(#[trigger] locs[k], rings),
        forall|r: int, i: int, j: int|
            0 <= r < n && 0 <= i < j < rings[r].len() && !follow(i, j, rings[r].len() as int)
                && #[trigger] properly_cross(edge(rings[r], i), edge(rings[r], j)) ==> spotted(
                locs,
                r,
                Kind::Cross,
                i,
                j,
            ),
        forall|r: int, i: int, j: int|
            0 <= r < n && searched(rings[r]) && 0 <= i < j < rings[r].len() && !follow(
                i,
                j,
                rings[r].len() as int,
            ) && #[trigger] share_a_stretch(edge(rings[r], i), edge(rings[r], j)) ==> spotted(
                locs,
                r,
                Kind::Overlap,
                i,
                j,
            ),
    decreases n,
{
    if n > 0 {
        let c = rings[n - 1];
        lemma_pairs_mean(c);
        lemma_searched(c);
        assert(standing(rings)(n - 1) == searched(c));
        if !searched(c) {
            lemma_spots_upto(locs, rings, n - 1);
            assert forall|r: int, i: int, j: int|
                0 <= r < n && 0 <= i < j < rings[r].len() && !follow(i, j, rings[r].len() as int)
                    && #[trigger] properly_cross(edge(rings[r], i), edge(rings[r], j)) implies spotted(
                locs,
                r,
                Kind::Cross,
                i,
                j,
            ) by {
                if r == n - 1 {
                    assert(crossing_pairs(c).contains((i, j)));
                }
            }
        } else {
            let from = locs.len() - spots(c);
            let few = locs.take(from);
            lemma_spots_upto(few, rings, n - 1);
            reveal(locates);
            assert forall|k: int| 0 <= k < locs.len() implies is_spot(#[trigger] locs[k], rings) by {
                if k < from {
                    assert(few[k] == locs[k]);
                } else {
                    let l = locs[k];
                    let e = sorted_pair(l.first as int, l.second as int);
                    assert(match l.kind {
                        Kind::Cross => crossing_pairs(c).contains(e),
                        Kind::Overlap => overlapping_pairs(c).contains(e),
                    });
                }
            }
            assert forall|r: int, i: int, j: int|
                0 <= r < n && 0 <= i < j < rings[r].len() && !follow(i, j, rings[r].len() as int)
                    && #[trigger] properly_cross(edge(rings[r], i), edge(rings[r], j)) implies spotted(
                locs,
                r,
                Kind::Cross,
                i,
                j,
            ) by {
                if r == n - 1 {
                    assert(crossing_pairs(c).contains((i, j)));
                } else {
                    lemma_spotted_in_more(locs, from, r, Kind::Cross, i, j);
                }
            }
            assert forall|r: int, i: int, j: int|
                0 <= r < n && searched(rings[r]) && 0 <= i < j < rings[r].len() && !follow(
                    i,
                    j,
                    rings[r].len() as int,
                ) && #[trigger] share_a_stretch(edge(rings[r], i), edge(rings[r], j)) implies spotted(
                locs,
                r,
                Kind::Overlap,
                i,
                j,
            ) by {
                if r == n - 1 {
                    assert(overlapping_pairs(c).contains((i, j)));
                } else {
                    lemma_spotted_in_more(locs, from, r, Kind::Overlap, i, j);
                }
            }
        }
    }
}

proof fn lemma_spotted_in_more(locs: Seq<Loc>, from: int, r: int, kind: Kind, i: int, j: int)
    requires
        0 <= from <= locs.len(),
        spotted(locs.take(from), r, kind, i, j),
    ensures
        spotted(locs, r, kind, i, j),
{
    let few = locs.take(from);
    let k = choose|k: int|
        0 <= k < few.len() && (#[trigger] few[k]).ring == r && few[k].kind == kind && ((
        few[k].first == i && few[k].second == j) || (few[k].first == j && few[k].second == i));
    assert(locs[k] == few[k]);
}

/// The smaller of two numbers.
pub open spec fn lesser(a: int, b: int) -> int {
    if a <= b {
        a
    } else {
        b
    }
}

/// The larger of two numbers.
pub open spec fn greater(a: int, b: int) -> int {
    if a <= b {
        b
    } else {
        a
    }
}

/// Twice the middle of what two ranges share, each given by its ends.
pub open spec fn shared_middle(a: int, b: int, c: int, d: int) -> int {
    greater(lesser(a, b), lesser(c, d)) + lesser(greater(a, b), greater(c, d))
}

/// On a line, a point between two others along it lies between them crosswise.
proof fn lemma_between_on_a_line(f: Vertex, t: Vertex, l: Vertex)
    requires
        point_le(f, t),
        point_le(t, l),
        (l.0 - f.0) * (t.1 - f.1) == (l.1 - f.1) * (t.0 - f.0),
    ensures
        (f.1 <= t.1 && t.1 <= l.1) || (l.1 <= t.1 && t.1 <= f.1),
{
    if f.0 < l.0 {
        let (w, h) = (l.0 - f.0, l.1 - f.1);
        let (x, y) = (t.0 - f.0, t.1 - f.1);
        lemma_between_steps(w, x, h, y);
    }
}

proof fn lemma_between_steps(w: int, x: int, h: int, y: int)
    requires
        w > 0,
        0 <= x <= w,
        w * y == h * x,
    ensures
        (0 <= y <= h) || (h <= y <= 0),
{
    assert(x * h == w * y) by (nonlinear_arith)
        requires
            w * y == h * x,
    ;
    lemma_between(w, x, h, y);
}

/// Twice the middle of two overlapping segments is twice the middle of what
/// they share along either axis.
pub proof fn lemma_middle_of_what_is_shared(p: Segment, q: Segment)
    requires
        class_of(p, q) == Class::Overlap,
    ensures
        doubled_midpoint(p, q).0 == shared_middle(
            p.0.0 as int,
            p.1.0 as int,
            q.0.0 as int,
            q.1.0 as int,
        ),
        doubled_midpoint(p, q).1 == shared_middle(
            p.0.1 as int,
            p.1.1 as int,
            q.0.1 as int,
            q.1.1 as int,
        ),
{
    reveal(class_of);
    let f = first_point(first_point(p.0, p.1), first_point(q.0, q.1));
    let l = last_point(last_point(p.0, p.1), last_point(q.0, q.1));
    lemma_line(f, p.0, l, p, q);
    lemma_line(f, p.1, l, p, q);
    lemma_line(f, q.0, l, p, q);
    lemma_line(f, q.1, l, p, q);
}

/// Whether a vertex is an end of one of two segments.
spec fn is_end(v: Vertex, p: Segment, q: Segment) -> bool {
    v == p.0 || v == p.1 || v == q.0 || v == q.1
}

/// The ends of two segments on a line, sorted along it, are sorted crosswise.
proof fn lemma_line(f: Vertex, t: Vertex, l: Vertex, p: Segment, q: Segment)
    requires
        is_end(f, p, q),
        is_end(t, p, q),
        is_end(l, p, q),
        point_le(f, t),
        point_le(t, l),
        turn(p.0, p.1, q.0) == 0,
        turn(p.0, p.1, q.1) == 0,
        turn(q.0, q.1, p.0) == 0,
        turn(q.0, q.1, p.1) == 0,
    ensures
        (f.1 <= t.1 && t.1 <= l.1) || (l.1 <= t.1 && t.1 <= f.1),
{
    if t != f && t != l && f != l {
        lemma_turn_rotates(p.0, p.1, q.0);
        lemma_turn_rotates(p.0, p.1, q.1);
        lemma_turn_rotates(q.0, q.1, p.0);
        lemma_turn_rotates(q.0, q.1, p.1);
        assert(turn(f, l, t) == 0);
        lemma_between_on_a_line(f, t, l);
    }
}

/// Three points on a line are on it in any order.
proof fn lemma_turn_rotates(a: Vertex, b: Vertex, c: Vertex)
    requires
        turn(a, b, c) == 0,
    ensures
        turn(a, c, b) == 0,
        turn(b, a, c) == 0,
        turn(b, c, a) == 0,
        turn(c, a, b) == 0,
        turn(c, b, a) == 0,
{
    lemma_turn_parts(a, b, c);
    lemma_turn_parts(a, c, b);
    lemma_turn_parts(b, a, c);
    lemma_turn_parts(b, c, a);
    lemma_turn_parts(c, a, b);
    lemma_turn_parts(c, b, a);
    let (ax, ay, bx, by, cx, cy) = (
        a.0 as int,
        a.1 as int,
        b.0 as int,
        b.1 as int,
        c.0 as int,
        c.1 as int,
    );
    assert(ax * by == by * ax && ax * cy == cy * ax && bx * ay == ay * bx && bx * cy == cy * bx
        && cx * ay == ay * cx && cx * by == by * cx) by (nonlinear_arith);
}

/// A turn in products of coordinates.
proof fn lemma_turn_parts(a: Vertex, b: Vertex, c: Vertex)
    ensures
        turn(a, b, c) == b.0 * c.1 - b.0 * a.1 - a.0 * c.1 - (b.1 * c.0 - b.1 * a.0 - a.1 * c.0),
{
    let (ax, ay, bx, by, cx, cy) = (
        a.0 as int,
        a.1 as int,
        b.0 as int,
        b.1 as int,
        c.0 as int,
        c.1 as int,
    );
    assert((bx - ax) * (cy - ay) == bx * cy - bx * ay - ax * cy + ax * ay) by (nonlinear_arith);
    assert((by - ay) * (cx - ax) == by * cx - by * ax - ay * cx + ax * ay) by (nonlinear_arith);
}

} // verus!
