//! What fixed-point barycentric coordinates say of the triangle itself.
//!
//! The products and quotients behind barycentric coordinates are rounded. The
//! laws here bound what the rounding can do: a point that is well inside a
//! triangle has coordinates that say so, and a point whose coordinates say that it
//! is inside is at most a hair outside. Areas are measured exactly, in squares of
//! the smallest fixed-point unit.

use super::fixed::{product, quotient, ratio, ONE};
use super::ops::{cross, degenerate, inside, legs, weights, COORD_MAX};
use super::types::Vector3;
use vstd::arithmetic::div_mod::{lemma_fundamental_div_mod, lemma_mod_bound};
use vstd::prelude::*;

verus! {

/// Twice the area of the triangle `p`, `q`, `r`, seen from above: above zero if
/// the way from `p` over `q` to `r` turns left, below zero if it turns right.
pub open spec fn turn(p: Vector3, q: Vector3, r: Vector3) -> int {
    (q.x - p.x) * (r.y - p.y) - (q.y - p.y) * (r.x - p.x)
}

/// How far `t` leans to the side of `of`: `t` itself if `of` is above zero, else
/// what `t` is below zero.
pub open spec fn side(t: int, of: int) -> int {
    if of > 0 {
        t
    } else {
        -t
    }
}

/// Whether `p` lies on the inner side of each edge of the triangle `a`, `b`, `c`
/// by more than `margin`: for each edge, twice the area of the triangle that the
/// edge makes with `p`, taken with the sense of the triangle, is above `margin`.
pub open spec fn within_by(a: Vector3, b: Vector3, c: Vector3, p: Vector3, margin: int) -> bool {
    let whole = turn(a, b, c);
    &&& whole != 0
    &&& side(turn(a, b, p), whole) > margin
    &&& side(turn(b, c, p), whole) > margin
    &&& side(turn(c, a, p), whole) > margin
}

/// A fixed-point product, scaled up again, misses the exact product by less than
/// one.
pub proof fn lemma_product_error(x: int, y: int)
    ensures
        -ONE < x * y - ONE * product(x, y) < ONE,
{
}

/// A fixed-point quotient by a number above zero, multiplied by that number
/// again, misses what was divided by less than that number, and not in the
/// direction away from zero.
pub proof fn lemma_ratio_error(n: int, d: int)
    requires
        d > 0,
    ensures
        n >= 0 ==> 0 <= n * ONE - ratio(n, d) * d < d && ratio(n, d) >= 0,
        n <= 0 ==> -d < n * ONE - ratio(n, d) * d <= 0 && ratio(n, d) <= 0,
{
    let m = if n >= 0 { n * ONE } else { -(n * ONE) };
    assert(n >= 0 ==> n * ONE >= 0) by (nonlinear_arith);
    assert(n <= 0 ==> n * ONE <= 0) by (nonlinear_arith);
    lemma_fundamental_div_mod(m, d);
    lemma_mod_bound(m, d);
    assert(d * (m / d) == (m / d) * d) by (nonlinear_arith);
    assert((-(m / d)) * d == -((m / d) * d)) by (nonlinear_arith);
    assert(m / d >= 0) by (nonlinear_arith)
        requires
            m >= 0,
            d > 0,
    ;
    if n == 0 {
        assert(m == 0);
        assert(0int / d == 0) by (nonlinear_arith)
            requires
                d > 0,
        ;
    }
}

/// Dividing by a number below zero is dividing the negated number by the
/// negated divisor.
pub proof fn lemma_ratio_flip(n: int, d: int)
    requires
        d != 0,
    ensures
        ratio(n, d) == ratio(-n, -d),
{
    assert((-n) * ONE == -(n * ONE)) by (nonlinear_arith);
    if n == 0 {
        assert(0int / d == 0) by (nonlinear_arith)
            requires
                d != 0,
        ;
        assert(0int / (-d) == 0) by (nonlinear_arith)
            requires
                d != 0,
        ;
    }
}

/// The cross product of `f` and `s` without rounding: each component is the
/// fixed-point one times `ONE`, but for the rounding.
pub open spec fn exact_cross(f: Vector3, s: Vector3) -> Vector3 {
    Vector3 {
        x: f.y * s.z - f.z * s.y,
        y: f.z * s.x - f.x * s.z,
        z: f.x * s.y - f.y * s.x,
    }
}

/// Each component of a fixed-point cross product, scaled up again, misses the
/// exact one by less than two.
pub proof fn lemma_cross_error(f: Vector3, s: Vector3)
    ensures
        -2 * ONE < exact_cross(f, s).x - ONE * cross(f, s).x < 2 * ONE,
        -2 * ONE < exact_cross(f, s).y - ONE * cross(f, s).y < 2 * ONE,
        -2 * ONE < exact_cross(f, s).z - ONE * cross(f, s).z < 2 * ONE,
{
    lemma_product_error(f.y, s.z);
    lemma_product_error(f.z, s.y);
    lemma_product_error(f.z, s.x);
    lemma_product_error(f.x, s.z);
    lemma_product_error(f.x, s.y);
    lemma_product_error(f.y, s.x);
}

/// The product of two differences, multiplied out.
proof fn lemma_expand(a: int, b: int, c: int, d: int)
    ensures
        (a - b) * (c - d) == a * c - a * d - b * c + b * d,
{
    assert((a - b) * (c - d) == a * c - a * d - b * c + b * d) by (nonlinear_arith);
}

/// A product is the same with its factors in the other order.
proof fn lemma_commute(a: int, b: int)
    ensures
        a * b == b * a,
{
    assert(a * b == b * a) by (nonlinear_arith);
}

/// Twice the area of a triangle, multiplied out.
proof fn lemma_turn_expanded(p: Vector3, q: Vector3, r: Vector3)
    ensures
        turn(p, q, r) == q.x * r.y - q.x * p.y - p.x * r.y - q.y * r.x + q.y * p.x + p.y * r.x,
{
    lemma_expand(q.x, p.x, r.y, p.y);
    lemma_expand(q.y, p.y, r.x, p.x);
    lemma_commute(p.x, p.y);
}

/// Twice the area of the triangle that `q` and `r` make with `p`, measured from
/// `p`.
proof fn lemma_turn_about(p: Vector3, q: Vector3, r: Vector3)
    ensures
        turn(q, r, p) == (q.x - p.x) * (r.y - p.y) - (r.x - p.x) * (q.y - p.y),
{
    lemma_turn_expanded(q, r, p);
    lemma_expand(q.x, p.x, r.y, p.y);
    lemma_expand(r.x, p.x, q.y, p.y);
    lemma_commute(r.y, q.x);
    lemma_commute(p.x, r.y);
    lemma_commute(p.x, q.y);
}

/// The exact cross product of the legs of a point holds the areas of the
/// triangles that the point makes with two of the edges, and that of the whole
/// triangle; the three small triangles make up the whole.
pub proof fn lemma_legs_are_turns(a: Vector3, b: Vector3, c: Vector3, p: Vector3)
    ensures
        exact_cross(legs(a, b, c, p).0, legs(a, b, c, p).1).x == -turn(a, b, p),
        exact_cross(legs(a, b, c, p).0, legs(a, b, c, p).1).y == -turn(c, a, p),
        exact_cross(legs(a, b, c, p).0, legs(a, b, c, p).1).z == -turn(a, b, c),
        turn(a, b, p) + turn(b, c, p) + turn(c, a, p) == turn(a, b, c),
{
    lemma_turn_expanded(a, b, p);
    lemma_turn_expanded(b, c, p);
    lemma_turn_expanded(c, a, p);
    lemma_turn_expanded(a, b, c);
    lemma_commute(c.y, b.x);
    lemma_commute(c.x, b.y);
    lemma_commute(a.x, b.y);
    lemma_commute(a.x, c.y);
    lemma_commute(a.y, c.x);
    lemma_commute(p.x, b.y);
    lemma_commute(p.x, a.y);
    lemma_commute(p.x, c.y);
    lemma_commute(a.x, a.y);
    lemma_expand(b.x, a.x, a.y, p.y);
    lemma_expand(a.x, p.x, b.y, a.y);
    lemma_expand(a.x, p.x, c.y, a.y);
    lemma_expand(c.x, a.x, a.y, p.y);
    lemma_expand(c.x, a.x, b.y, a.y);
    lemma_expand(b.x, a.x, c.y, a.y);
}

/// The heart of [`lemma_inside_is_nearly_within`], on numbers alone: `ux`, `uy`
/// and `d` are components of a fixed-point cross product, `d` at least one, and
/// `ex`, `ey`, `ez` the exact ones.
proof fn lemma_nearly_within(ux: int, uy: int, d: int, ex: int, ey: int, ez: int)
    requires
        d >= ONE,
        -2 * ONE < ex - ONE * ux < 2 * ONE,
        -2 * ONE < ey - ONE * uy < 2 * ONE,
        -2 * ONE < ez - ONE * d < 2 * ONE,
        ratio(ux, d) >= 0,
        ratio(uy, d) >= 0,
        ratio(ux, d) + ratio(uy, d) <= ONE,
    ensures
        ez > 0,
        ONE * ex + 10 * ez > 0,
        ONE * ey + 10 * ez > 0,
        ONE * (ez - ex - ey) + 10 * ez > 0,
{
    let u = ratio(ux, d);
    let v = ratio(uy, d);
    lemma_ratio_error(ux, d);
    lemma_ratio_error(uy, d);
    assert(u * d >= 0 && v * d >= 0 && (u + v) * d <= ONE * d && (u + v) * d == u * d + v * d)
        by (nonlinear_arith)
        requires
            u >= 0,
            v >= 0,
            u + v <= ONE,
            d > 0,
    ;
    assert(ONE * ONE == 0x1_0000_0000_0000_0000) by (nonlinear_arith)
        requires
            ONE == 0x1_0000_0000,
    ;
    assert(ONE * d >= ONE * ONE) by (nonlinear_arith)
        requires
            d >= ONE,
            ONE > 0,
    ;
    assert(ux * ONE > -d);
    assert(uy * ONE > -d);
    assert((ux + uy) * ONE == ux * ONE + uy * ONE) by (nonlinear_arith);
    assert(ONE * (d - ux - uy) == ONE * d - ux * ONE - uy * ONE) by (nonlinear_arith);
    assert(ONE * (d - ux - uy) > -2 * d);
    assert(ONE * ex > ONE * (-d - 2 * ONE)) by (nonlinear_arith)
        requires
            ex > -d - 2 * ONE,
            ONE > 0,
    ;
    assert(ONE * ey > ONE * (-d - 2 * ONE)) by (nonlinear_arith)
        requires
            ey > -d - 2 * ONE,
            ONE > 0,
    ;
    assert(ONE * (ez - ex - ey) > ONE * (-2 * d - 6 * ONE)) by (nonlinear_arith)
        requires
            ez - ex - ey > -2 * d - 6 * ONE,
            ONE > 0,
    ;
    assert(ONE * (-d - 2 * ONE) == -(ONE * d) - 2 * (ONE * ONE)) by (nonlinear_arith);
    assert(ONE * (-2 * d - 6 * ONE) == -2 * (ONE * d) - 6 * (ONE * ONE)) by (nonlinear_arith);
}

/// The heart of [`lemma_well_within_is_inside`], on numbers alone.
proof fn lemma_well_within(ux: int, uy: int, d: int, ex: int, ey: int, ez: int)
    requires
        d >= ONE,
        -2 * ONE < ex - ONE * ux < 2 * ONE,
        -2 * ONE < ey - ONE * uy < 2 * ONE,
        -2 * ONE < ez - ONE * d < 2 * ONE,
        ex > 6 * ONE,
        ey > 6 * ONE,
        ez - ex - ey > 6 * ONE,
    ensures
        ratio(ux, d) >= 0,
        ratio(uy, d) >= 0,
        ratio(ux, d) + ratio(uy, d) <= ONE,
{
    let u = ratio(ux, d);
    let v = ratio(uy, d);
    assert(ux > 0 && uy > 0 && d - ux - uy > 0) by {
        assert(ONE * ux > 0);
        assert(ONE * uy > 0);
        assert(ONE * (d - ux - uy) == ONE * d - ONE * ux - ONE * uy) by (nonlinear_arith);
        assert(ONE * (d - ux - uy) > 0);
        assert(ux > 0) by (nonlinear_arith)
            requires
                ONE * ux > 0,
                ONE > 0,
        ;
        assert(uy > 0) by (nonlinear_arith)
            requires
                ONE * uy > 0,
                ONE > 0,
        ;
        assert(d - ux - uy > 0) by (nonlinear_arith)
            requires
                ONE * (d - ux - uy) > 0,
                ONE > 0,
        ;
    }
    lemma_ratio_error(ux, d);
    lemma_ratio_error(uy, d);
    assert((u + v) * d <= ONE * d) by (nonlinear_arith)
        requires
            u * d <= ux * ONE,
            v * d <= uy * ONE,
            ux + uy <= d,
            ONE > 0,
    ;
    assert(u + v <= ONE) by (nonlinear_arith)
        requires
            (u + v) * d <= ONE * d,
            d > 0,
    ;
}

/// The size of `t`, whatever its sign.
pub open spec fn magnitude(t: int) -> int {
    if t >= 0 {
        t
    } else {
        -t
    }
}

/// How far outside a triangle a point can lie whose barycentric coordinates say
/// that it is inside: ten units for each `ONE` units of twice the area of the
/// triangle, and ten more.
pub open spec fn hair(a: Vector3, b: Vector3, c: Vector3) -> int {
    10 * (magnitude(turn(a, b, c)) / (ONE as int) + 1)
}

/// A point whose barycentric coordinates are all non-negative lies inside the
/// triangle or outside it by no more than a hair: the triangle is not degenerate,
/// and on the outer side of an edge the point makes with that edge a triangle of
/// less than `hair` units of area.
pub proof fn lemma_inside_is_nearly_within(a: Vector3, b: Vector3, c: Vector3, p: Vector3)
    requires
        inside(weights(a, b, c, p)),
    ensures
        !degenerate(a, b, c),
        within_by(a, b, c, p, -hair(a, b, c)),
{
    let (f, s) = legs(a, b, c, p);
    let u = cross(f, s);
    let e = exact_cross(f, s);
    lemma_cross_error(f, s);
    lemma_legs_are_turns(a, b, c, p);
    let size = magnitude(turn(a, b, c));
    vstd::arithmetic::div_mod::lemma_fundamental_div_mod(size, ONE as int);
    if u.z >= ONE {
        lemma_nearly_within(u.x, u.y, u.z, e.x, e.y, e.z);
        assert(size == e.z);
        assert(ONE * (size / (ONE as int) + 1) > size);
        assert(ONE * e.x > ONE * (-hair(a, b, c)));
        assert(ONE * e.y > ONE * (-hair(a, b, c)));
        assert(ONE * (e.z - e.x - e.y) > ONE * (-hair(a, b, c)));
        lemma_cancel(e.x, -hair(a, b, c));
        lemma_cancel(e.y, -hair(a, b, c));
        lemma_cancel(e.z - e.x - e.y, -hair(a, b, c));
    } else {
        lemma_ratio_flip(u.x, u.z);
        lemma_ratio_flip(u.y, u.z);
        lemma_nearly_within(-u.x, -u.y, -u.z, -e.x, -e.y, -e.z);
        assert(size == -e.z);
        assert(ONE * (size / (ONE as int) + 1) > size);
        assert(ONE * (-e.x) > ONE * (-hair(a, b, c)));
        assert(ONE * (-e.y) > ONE * (-hair(a, b, c)));
        assert(ONE * (-(e.z - e.x - e.y)) > ONE * (-hair(a, b, c)));
        lemma_cancel(-e.x, -hair(a, b, c));
        lemma_cancel(-e.y, -hair(a, b, c));
        lemma_cancel(-(e.z - e.x - e.y), -hair(a, b, c));
    }
}

/// Of two numbers the one with the larger multiple of `ONE` is the larger.
proof fn lemma_cancel(x: int, y: int)
    requires
        ONE * x > ONE * y,
    ensures
        x > y,
{
    assert(x > y) by (nonlinear_arith)
        requires
            ONE * x > ONE * y,
            ONE > 0,
    ;
}

/// A point that lies well inside a triangle which is not degenerate has
/// barycentric coordinates that are all non-negative. Well inside is: on the
/// inner side of each edge by more than six times `ONE` units of area.
pub proof fn lemma_well_within_is_inside(a: Vector3, b: Vector3, c: Vector3, p: Vector3)
    requires
        !degenerate(a, b, c),
        within_by(a, b, c, p, 6 * ONE),
    ensures
        inside(weights(a, b, c, p)),
{
    let (f, s) = legs(a, b, c, p);
    let u = cross(f, s);
    let e = exact_cross(f, s);
    lemma_cross_error(f, s);
    lemma_legs_are_turns(a, b, c, p);
    assert(ONE * ONE == 0x1_0000_0000_0000_0000) by (nonlinear_arith)
        requires
            ONE == 0x1_0000_0000,
    ;
    if u.z >= ONE {
        assert(ONE * u.z >= ONE * ONE) by (nonlinear_arith)
            requires
                u.z >= ONE,
                ONE > 0,
        ;
        lemma_well_within(u.x, u.y, u.z, e.x, e.y, e.z);
    } else {
        assert(ONE * (-u.z) >= ONE * ONE) by (nonlinear_arith)
            requires
                -u.z >= ONE,
                ONE > 0,
        ;
        lemma_ratio_flip(u.x, u.z);
        lemma_ratio_flip(u.y, u.z);
        lemma_well_within(-u.x, -u.y, -u.z, -e.x, -e.y, -e.z);
    }
}

/// A point inside a triangle or on its boundary lies, along each axis, between
/// the corners.
pub proof fn lemma_within_is_between(a: Vector3, b: Vector3, c: Vector3, p: Vector3)
    requires
        within_by(a, b, c, p, -1),
    ensures
        a.x <= p.x || b.x <= p.x || c.x <= p.x,
        a.x >= p.x || b.x >= p.x || c.x >= p.x,
        a.y <= p.y || b.y <= p.y || c.y <= p.y,
        a.y >= p.y || b.y >= p.y || c.y >= p.y,
{
    lemma_legs_are_turns(a, b, c, p);
    let whole = turn(a, b, c);
    let ta = side(turn(b, c, p), whole);
    let tb = side(turn(c, a, p), whole);
    let tc = side(turn(a, b, p), whole);
    let (ax, ay) = (a.x - p.x, a.y - p.y);
    let (bx, by) = (b.x - p.x, b.y - p.y);
    let (cx, cy) = (c.x - p.x, c.y - p.y);
    lemma_turn_about(p, b, c);
    lemma_turn_about(p, c, a);
    lemma_turn_about(p, a, b);
    lemma_three_crosses(ax, ay, bx, by, cx, cy);
    lemma_three_crosses(ay, ax, by, bx, cy, cx);
    assert(turn(b, c, p) * ay + turn(c, a, p) * by + turn(a, b, p) * cy == 0) by (nonlinear_arith)
        requires
            (by * cx - cy * bx) * ay + (cy * ax - ay * cx) * by + (ay * bx - by * ax) * cy == 0,
            turn(b, c, p) == bx * cy - cx * by,
            turn(c, a, p) == cx * ay - ax * cy,
            turn(a, b, p) == ax * by - bx * ay,
    ;
    assert(ta * ax + tb * bx + tc * cx == 0) by (nonlinear_arith)
        requires
            turn(b, c, p) * ax + turn(c, a, p) * bx + turn(a, b, p) * cx == 0,
            ta == turn(b, c, p) && tb == turn(c, a, p) && tc == turn(a, b, p) || ta == -turn(
                b,
                c,
                p,
            ) && tb == -turn(c, a, p) && tc == -turn(a, b, p),
    ;
    assert(ta * ay + tb * by + tc * cy == 0) by (nonlinear_arith)
        requires
            turn(b, c, p) * ay + turn(c, a, p) * by + turn(a, b, p) * cy == 0,
            ta == turn(b, c, p) && tb == turn(c, a, p) && tc == turn(a, b, p) || ta == -turn(
                b,
                c,
                p,
            ) && tb == -turn(c, a, p) && tc == -turn(a, b, p),
    ;
    lemma_signs(ta, tb, tc, ax, bx, cx);
    lemma_signs(ta, tb, tc, ay, by, cy);
}

/// The three crosses of three vectors, each weighted by a component of the
/// vector that is not in it, add up to zero.
proof fn lemma_three_crosses(ax: int, ay: int, bx: int, by: int, cx: int, cy: int)
    ensures
        (bx * cy - cx * by) * ax + (cx * ay - ax * cy) * bx + (ax * by - bx * ay) * cx == 0,
{
    assert((bx * cy - cx * by) * ax == (bx * cy) * ax - (cx * by) * ax) by (nonlinear_arith);
    assert((cx * ay - ax * cy) * bx == (cx * ay) * bx - (ax * cy) * bx) by (nonlinear_arith);
    assert((ax * by - bx * ay) * cx == (ax * by) * cx - (bx * ay) * cx) by (nonlinear_arith);
    assert((bx * cy) * ax == (ax * cy) * bx) by (nonlinear_arith);
    assert((cx * by) * ax == (ax * by) * cx) by (nonlinear_arith);
    assert((cx * ay) * bx == (bx * ay) * cx) by (nonlinear_arith);
}

/// Three numbers cannot all be above zero, nor all below, if they add up to zero
/// when weighted by three numbers that are not negative and not all zero.
proof fn lemma_signs(ta: int, tb: int, tc: int, x: int, y: int, z: int)
    requires
        ta >= 0,
        tb >= 0,
        tc >= 0,
        ta + tb + tc > 0,
        ta * x + tb * y + tc * z == 0,
    ensures
        x <= 0 || y <= 0 || z <= 0,
        x >= 0 || y >= 0 || z >= 0,
{
    if x > 0 && y > 0 && z > 0 {
        assert(ta * x >= ta && tb * y >= tb && tc * z >= tc) by (nonlinear_arith)
            requires
                ta >= 0,
                tb >= 0,
                tc >= 0,
                x >= 1,
                y >= 1,
                z >= 1,
        ;
    }
    if x < 0 && y < 0 && z < 0 {
        assert(ta * x <= -ta && tb * y <= -tb && tc * z <= -tc) by (nonlinear_arith)
            requires
                ta >= 0,
                tb >= 0,
                tc >= 0,
                x <= -1,
                y <= -1,
                z <= -1,
        ;
    }
}

/// A product is no larger than the product of the bounds of its factors.
proof fn lemma_product_within(x: int, y: int, bx: int, by: int)
    requires
        -bx <= x <= bx,
        -by <= y <= by,
    ensures
        -(bx * by) <= x * y <= bx * by,
{
    assert(-(bx * by) <= x * y <= bx * by) by (nonlinear_arith)
        requires
            -bx <= x <= bx,
            -by <= y <= by,
    ;
}

/// The heart of [`lemma_weights_give_back_the_point`], on numbers alone: `f` is
/// a leg, `ux`, `uy` and `d` are the components of the fixed-point cross product
/// of the legs, `d` at least one, and `ex`, `ey`, `ez` are what they miss of the
/// exact cross product, to which the leg is at a right angle.
proof fn lemma_given_back(
    fx: int,
    fy: int,
    fz: int,
    ux: int,
    uy: int,
    d: int,
    ex: int,
    ey: int,
    ez: int,
)
    requires
        d >= ONE,
        -2 * ONE < ex < 2 * ONE,
        -2 * ONE < ey < 2 * ONE,
        -2 * ONE < ez < 2 * ONE,
        fx * (ONE * ux + ex) + fy * (ONE * uy + ey) + fz * (ONE * d + ez) == 0,
    ensures
        -3 * (magnitude(fx) + magnitude(fy) + magnitude(fz)) <= ONE * fz + ratio(uy, d) * fy + ratio(
            ux,
            d,
        ) * fx <= 3 * (magnitude(fx) + magnitude(fy) + magnitude(fz)),
{
    let u = ratio(ux, d);
    let v = ratio(uy, d);
    lemma_ratio_error(ux, d);
    lemma_ratio_error(uy, d);
    let ru = ux * ONE - u * d;
    let rv = uy * ONE - v * d;
    let (mx, my, mz) = (magnitude(fx), magnitude(fy), magnitude(fz));
    let all = mx + my + mz;
    let e = ONE * fz + v * fy + u * fx;
    assert(d * e == d * (ONE * fz) + d * (v * fy) + d * (u * fx)) by (nonlinear_arith)
        requires
            e == ONE * fz + v * fy + u * fx,
    ;
    assert(d * (v * fy) == fy * (v * d)) by (nonlinear_arith);
    assert(d * (u * fx) == fx * (u * d)) by (nonlinear_arith);
    assert(d * (ONE * fz) == fz * (ONE * d)) by (nonlinear_arith);
    assert(fy * (v * d) == fy * (uy * ONE) - fy * rv) by (nonlinear_arith)
        requires
            v * d == uy * ONE - rv,
    ;
    assert(fx * (u * d) == fx * (ux * ONE) - fx * ru) by (nonlinear_arith)
        requires
            u * d == ux * ONE - ru,
    ;
    assert(fx * (ONE * ux + ex) == fx * (ux * ONE) + fx * ex) by (nonlinear_arith);
    assert(fy * (ONE * uy + ey) == fy * (uy * ONE) + fy * ey) by (nonlinear_arith);
    assert(fz * (ONE * d + ez) == fz * (ONE * d) + fz * ez) by (nonlinear_arith);
    assert(d * e == -(fx * ex + fy * ey + fz * ez) - fy * rv - fx * ru);
    lemma_product_within(fx, ex, mx, 2 * ONE);
    lemma_product_within(fy, ey, my, 2 * ONE);
    lemma_product_within(fz, ez, mz, 2 * ONE);
    lemma_product_within(fy, rv, my, d);
    lemma_product_within(fx, ru, mx, d);
    assert(mx * (2 * ONE) + my * (2 * ONE) + mz * (2 * ONE) + my * d + mx * d <= d * (3 * all))
        by (nonlinear_arith)
        requires
            d >= ONE,
            ONE > 0,
            mx >= 0,
            my >= 0,
            mz >= 0,
            all == mx + my + mz,
    ;
    assert(-(d * (3 * all)) <= d * e <= d * (3 * all));
    assert(-(3 * all) <= e <= 3 * all) by (nonlinear_arith)
        requires
            -(d * (3 * all)) <= d * e <= d * (3 * all),
            d > 0,
    ;
}

/// Each leg of a point is at a right angle to the exact cross product of the
/// two legs.
proof fn lemma_legs_are_square(f: Vector3, s: Vector3)
    ensures
        f.x * exact_cross(f, s).x + f.y * exact_cross(f, s).y + f.z * exact_cross(f, s).z == 0,
        s.x * exact_cross(f, s).x + s.y * exact_cross(f, s).y + s.z * exact_cross(f, s).z == 0,
{
    let (fx, fy, fz, sx, sy, sz) = (f.x, f.y, f.z, s.x, s.y, s.z);
    assert(fx * (fy * sz - fz * sy) == fx * (fy * sz) - fx * (fz * sy)) by (nonlinear_arith);
    assert(fy * (fz * sx - fx * sz) == fy * (fz * sx) - fy * (fx * sz)) by (nonlinear_arith);
    assert(fz * (fx * sy - fy * sx) == fz * (fx * sy) - fz * (fy * sx)) by (nonlinear_arith);
    assert(fx * (fy * sz) == fy * (fx * sz)) by (nonlinear_arith);
    assert(fx * (fz * sy) == fz * (fx * sy)) by (nonlinear_arith);
    assert(fy * (fz * sx) == fz * (fy * sx)) by (nonlinear_arith);
    assert(sx * (fy * sz - fz * sy) == sx * (fy * sz) - sx * (fz * sy)) by (nonlinear_arith);
    assert(sy * (fz * sx - fx * sz) == sy * (fz * sx) - sy * (fx * sz)) by (nonlinear_arith);
    assert(sz * (fx * sy - fy * sx) == sz * (fx * sy) - sz * (fy * sx)) by (nonlinear_arith);
    assert(sx * (fy * sz) == sz * (fy * sx)) by (nonlinear_arith);
    assert(sx * (fz * sy) == sy * (fz * sx)) by (nonlinear_arith);
    assert(sy * (fx * sz) == sz * (fx * sy)) by (nonlinear_arith);
}

/// How far the corners of a triangle, weighted by the barycentric coordinates of
/// a point, may miss `ONE` times the point along one axis: three units for each
/// unit that the three components of the leg along that axis are long together.
pub open spec fn reach(leg: Vector3) -> int {
    3 * (magnitude(leg.x) + magnitude(leg.y) + magnitude(leg.z))
}

/// The barycentric coordinates of a point give the point back: in a triangle
/// that is not degenerate the corners, weighted by the coordinates of a point,
/// add up to `ONE` times the point, along both axes, but for the rounding, which
/// is within [`reach`].
pub proof fn lemma_weights_give_back_the_point(a: Vector3, b: Vector3, c: Vector3, p: Vector3)
    requires
        !degenerate(a, b, c),
    ensures
        ({
            let w = weights(a, b, c, p);
            let (f, s) = legs(a, b, c, p);
            &&& -reach(f) <= w.x * a.x + w.y * b.x + w.z * c.x - ONE * p.x <= reach(f)
            &&& -reach(s) <= w.x * a.y + w.y * b.y + w.z * c.y - ONE * p.y <= reach(s)
        }),
{
    let w = weights(a, b, c, p);
    let (f, s) = legs(a, b, c, p);
    let u = cross(f, s);
    let e = exact_cross(f, s);
    lemma_cross_error(f, s);
    lemma_legs_are_square(f, s);
    let nx = ratio(u.x, u.z);
    let ny = ratio(u.y, u.z);
    assert(w.x * a.x + w.y * b.x + w.z * c.x - ONE * p.x == ONE * f.z + ny * f.y + nx * f.x)
        by (nonlinear_arith)
        requires
            w.x == ONE - (nx + ny),
            w.y == ny,
            w.z == nx,
            f.x == c.x - a.x,
            f.y == b.x - a.x,
            f.z == a.x - p.x,
    ;
    assert(w.x * a.y + w.y * b.y + w.z * c.y - ONE * p.y == ONE * s.z + ny * s.y + nx * s.x)
        by (nonlinear_arith)
        requires
            w.x == ONE - (nx + ny),
            w.y == ny,
            w.z == nx,
            s.x == c.y - a.y,
            s.y == b.y - a.y,
            s.z == a.y - p.y,
    ;
    let (ex, ey, ez) = (e.x - ONE * u.x, e.y - ONE * u.y, e.z - ONE * u.z);
    if u.z >= ONE {
        assert(f.x * (ONE * u.x + ex) + f.y * (ONE * u.y + ey) + f.z * (ONE * u.z + ez) == 0);
        assert(s.x * (ONE * u.x + ex) + s.y * (ONE * u.y + ey) + s.z * (ONE * u.z + ez) == 0);
        lemma_given_back(f.x, f.y, f.z, u.x, u.y, u.z, ex, ey, ez);
        lemma_given_back(s.x, s.y, s.z, u.x, u.y, u.z, ex, ey, ez);
    } else {
        lemma_ratio_flip(u.x, u.z);
        lemma_ratio_flip(u.y, u.z);
        assert(f.x * (ONE * (-u.x) + (-ex)) + f.y * (ONE * (-u.y) + (-ey)) + f.z * (ONE * (-u.z) + (
        -ez)) == 0) by (nonlinear_arith)
            requires
                f.x * (ONE * u.x + ex) + f.y * (ONE * u.y + ey) + f.z * (ONE * u.z + ez) == 0,
        ;
        assert(s.x * (ONE * (-u.x) + (-ex)) + s.y * (ONE * (-u.y) + (-ey)) + s.z * (ONE * (-u.z) + (
        -ez)) == 0) by (nonlinear_arith)
            requires
                s.x * (ONE * u.x + ex) + s.y * (ONE * u.y + ey) + s.z * (ONE * u.z + ez) == 0,
        ;
        lemma_given_back(f.x, f.y, f.z, -u.x, -u.y, -u.z, -ex, -ey, -ez);
        lemma_given_back(s.x, s.y, s.z, -u.x, -u.y, -u.z, -ex, -ey, -ez);
    }
}

/// Whether the point `v` is the centre of a pixel: both of its first two
/// components are whole.
pub open spec fn on_grid(v: Vector3) -> bool {
    v.x % (ONE as int) == 0 && v.y % (ONE as int) == 0
}

/// A fixed-point product with a whole number is exact.
pub proof fn lemma_product_on_grid(x: int, y: int)
    requires
        x % (ONE as int) == 0,
    ensures
        product(x, y) == (x / (ONE as int)) * y,
        ONE * product(x, y) == x * y,
{
    let m = x / (ONE as int);
    let k = m * y;
    assert(x * y == ONE * k) by (nonlinear_arith)
        requires
            x == ONE * m,
            k == m * y,
    ;
}

/// The heart of [`lemma_on_grid_is_exact`], on numbers alone.
proof fn lemma_exactly_within(ux: int, uy: int, d: int)
    requires
        d >= ONE,
        ux >= 0,
        uy >= 0,
        ux + uy <= d,
    ensures
        ratio(ux, d) >= 0,
        ratio(uy, d) >= 0,
        ratio(ux, d) + ratio(uy, d) <= ONE,
{
    let u = ratio(ux, d);
    let v = ratio(uy, d);
    lemma_ratio_error(ux, d);
    lemma_ratio_error(uy, d);
    assert((u + v) * d <= ONE * d) by (nonlinear_arith)
        requires
            u * d <= ux * ONE,
            v * d <= uy * ONE,
            ux + uy <= d,
            ONE > 0,
    ;
    assert(u + v <= ONE) by (nonlinear_arith)
        requires
            (u + v) * d <= ONE * d,
            d > 0,
    ;
}

/// For a triangle whose corners are centres of pixels the membership test is
/// exact at the centre of every pixel: the barycentric coordinates are all
/// non-negative if and only if the triangle has an area and the centre lies
/// inside it or on its boundary.
pub proof fn lemma_on_grid_is_exact(a: Vector3, b: Vector3, c: Vector3, p: Vector3)
    requires
        a.flat_within(COORD_MAX as int),
        b.flat_within(COORD_MAX as int),
        c.flat_within(COORD_MAX as int),
        p.flat_within(COORD_MAX as int),
        on_grid(a),
        on_grid(b),
        on_grid(c),
        on_grid(p),
    ensures
        inside(weights(a, b, c, p)) <==> within_by(a, b, c, p, -1),
        degenerate(a, b, c) <==> turn(a, b, c) == 0,
{
    let (f, s) = legs(a, b, c, p);
    let u = cross(f, s);
    let e = exact_cross(f, s);
    lemma_legs_are_turns(a, b, c, p);
    lemma_product_on_grid(f.y, s.z);
    lemma_product_on_grid(f.z, s.y);
    lemma_product_on_grid(f.z, s.x);
    lemma_product_on_grid(f.x, s.z);
    lemma_product_on_grid(f.x, s.y);
    lemma_product_on_grid(f.y, s.x);
    assert(ONE * u.x == e.x && ONE * u.y == e.y && ONE * u.z == e.z);
    let (gx, gy, gz) = (f.x / (ONE as int), f.y / (ONE as int), f.z / (ONE as int));
    let (hx, hy, hz) = (s.x / (ONE as int), s.y / (ONE as int), s.z / (ONE as int));
    let kx = gy * hz - gz * hy;
    let ky = gz * hx - gx * hz;
    let kz = gx * hy - gy * hx;
    assert(u.x == ONE * kx && u.y == ONE * ky && u.z == ONE * kz) by (nonlinear_arith)
        requires
            u.x == gy * s.z - gz * s.y,
            u.y == gz * s.x - gx * s.z,
            u.z == gx * s.y - gy * s.x,
            s.x == ONE * hx,
            s.y == ONE * hy,
            s.z == ONE * hz,
            kx == gy * hz - gz * hy,
            ky == gz * hx - gx * hz,
            kz == gx * hy - gy * hx,
    ;
    assert(ONE * ONE == 0x1_0000_0000_0000_0000) by (nonlinear_arith)
        requires
            ONE == 0x1_0000_0000,
    ;
    assert(e.z == (ONE * ONE) * kz && e.x == (ONE * ONE) * kx && e.y == (ONE * ONE) * ky)
        by (nonlinear_arith)
        requires
            e.x == ONE * u.x,
            e.y == ONE * u.y,
            e.z == ONE * u.z,
            u.x == ONE * kx,
            u.y == ONE * ky,
            u.z == ONE * kz,
    ;
    let l: int = 0x4000;
    assert(-l <= gx <= l && -l <= gy <= l && -l <= hx <= l && -l <= hy <= l);
    lemma_product_within(gx, hy, l, l);
    lemma_product_within(gy, hx, l, l);
    assert(l * l == 0x1000_0000) by (nonlinear_arith)
        requires
            l == 0x4000,
    ;
    if kz == 0 {
        assert(!inside(weights(a, b, c, p)));
    } else if kz > 0 {
        if kx >= 0 && ky >= 0 && kx + ky <= kz {
            lemma_exactly_within(u.x, u.y, u.z);
        }
        if inside(weights(a, b, c, p)) {
            lemma_exactly_inside(kx, ky, kz);
        }
    } else {
        lemma_ratio_flip(u.x, u.z);
        lemma_ratio_flip(u.y, u.z);
        assert(-u.x == ONE * (-kx) && -u.y == ONE * (-ky) && -u.z == ONE * (-kz))
            by (nonlinear_arith)
            requires
                u.x == ONE * kx,
                u.y == ONE * ky,
                u.z == ONE * kz,
        ;
        if kx <= 0 && ky <= 0 && kx + ky >= kz {
            lemma_exactly_within(-u.x, -u.y, -u.z);
        }
        if inside(weights(a, b, c, p)) {
            lemma_exactly_inside(-kx, -ky, -kz);
        }
    }
}

/// The other half of the heart of [`lemma_on_grid_is_exact`]: `kx`, `ky` and
/// `kz` are the components of the cross product in whole squares of pixels.
proof fn lemma_exactly_inside(kx: int, ky: int, kz: int)
    requires
        0 < kz < 0x4000_0000,
        ratio(ONE * kx, ONE * kz) >= 0,
        ratio(ONE * ky, ONE * kz) >= 0,
        ratio(ONE * kx, ONE * kz) + ratio(ONE * ky, ONE * kz) <= ONE,
    ensures
        kx >= 0,
        ky >= 0,
        kx + ky <= kz,
{
    let d = ONE * kz;
    let u = ratio(ONE * kx, d);
    let v = ratio(ONE * ky, d);
    lemma_ratio_error(ONE * kx, d);
    lemma_ratio_error(ONE * ky, d);
    assert(u * d >= 0 && v * d >= 0 && (u + v) * d <= ONE * d && (u + v) * d == u * d + v * d)
        by (nonlinear_arith)
        requires
            u >= 0,
            v >= 0,
            u + v <= ONE,
            d > 0,
    ;
    let wx = (ONE * kx) * ONE;
    let wy = (ONE * ky) * ONE;
    assert(wx > -d && wy > -d);
    assert(wx + wy < ONE * d + 2 * d);
    if kx <= -1 {
        assert(wx <= -(ONE * ONE)) by (nonlinear_arith)
            requires
                wx == (ONE * kx) * ONE,
                kx <= -1,
                ONE > 0,
        ;
        assert(d < ONE * ONE) by (nonlinear_arith)
            requires
                d == ONE * kz,
                kz < ONE,
                ONE > 0,
        ;
    }
    if ky <= -1 {
        assert(wy <= -(ONE * ONE)) by (nonlinear_arith)
            requires
                wy == (ONE * ky) * ONE,
                ky <= -1,
                ONE > 0,
        ;
        assert(d < ONE * ONE) by (nonlinear_arith)
            requires
                d == ONE * kz,
                kz < ONE,
                ONE > 0,
        ;
    }
    if kx + ky >= kz + 1 {
        assert(wx + wy >= ONE * d + ONE * ONE) by (nonlinear_arith)
            requires
                wx == (ONE * kx) * ONE,
                wy == (ONE * ky) * ONE,
                d == ONE * kz,
                kx + ky >= kz + 1,
                ONE > 0,
        ;
        assert(2 * d < ONE * ONE) by (nonlinear_arith)
            requires
                d == ONE * kz,
                2 * kz < ONE,
                ONE > 0,
        ;
    }
}

/// Twice the area of a triangle changes its sign when two corners change places,
/// and stays as it is when the corners move round.
pub proof fn lemma_turn_moved(p: Vector3, q: Vector3, r: Vector3)
    ensures
        turn(q, p, r) == -turn(p, q, r),
        turn(p, r, q) == -turn(p, q, r),
        turn(q, r, p) == turn(p, q, r),
        turn(r, p, q) == turn(p, q, r),
{
    lemma_turn_expanded(p, q, r);
    lemma_turn_expanded(q, p, r);
    lemma_turn_expanded(p, r, q);
    lemma_turn_expanded(q, r, p);
    lemma_turn_expanded(r, p, q);
    lemma_commute(p.x, q.y);
    lemma_commute(p.x, r.y);
    lemma_commute(q.x, r.y);
    lemma_commute(q.x, p.y);
    lemma_commute(r.x, p.y);
    lemma_commute(r.x, q.y);
}

/// Whether a point lies inside a triangle, with a margin, does not depend on the
/// order in which the corners are named.
pub proof fn lemma_within_any_order(a: Vector3, b: Vector3, c: Vector3, p: Vector3, margin: int)
    ensures
        within_by(a, b, c, p, margin) == within_by(b, a, c, p, margin),
        within_by(a, b, c, p, margin) == within_by(a, c, b, p, margin),
        within_by(a, b, c, p, margin) == within_by(c, b, a, p, margin),
        within_by(a, b, c, p, margin) == within_by(b, c, a, p, margin),
        within_by(a, b, c, p, margin) == within_by(c, a, b, p, margin),
{
    lemma_turn_moved(a, b, c);
    lemma_turn_moved(b, c, a);
    lemma_turn_moved(c, a, b);
    lemma_turn_moved(a, b, p);
    lemma_turn_moved(b, a, p);
    lemma_turn_moved(b, c, p);
    lemma_turn_moved(c, b, p);
    lemma_turn_moved(c, a, p);
    lemma_turn_moved(a, c, p);
}

/// The three triangles that a point makes with the edges of a triangle balance
/// about the point: the corners, each taken from the point and weighted by the
/// area of the triangle that the point makes with the edge opposite, add up to
/// nothing.
pub proof fn lemma_turns_balance(a: Vector3, b: Vector3, c: Vector3, p: Vector3)
    ensures
        turn(b, c, p) * (a.x - p.x) + turn(c, a, p) * (b.x - p.x) + turn(a, b, p) * (c.x - p.x) == 0,
        turn(b, c, p) * (a.y - p.y) + turn(c, a, p) * (b.y - p.y) + turn(a, b, p) * (c.y - p.y) == 0,
        turn(a, b, p) + turn(b, c, p) + turn(c, a, p) == turn(a, b, c),
{
    lemma_legs_are_turns(a, b, c, p);
    let (ax, ay) = (a.x - p.x, a.y - p.y);
    let (bx, by) = (b.x - p.x, b.y - p.y);
    let (cx, cy) = (c.x - p.x, c.y - p.y);
    lemma_turn_about(p, b, c);
    lemma_turn_about(p, c, a);
    lemma_turn_about(p, a, b);
    lemma_three_crosses(ax, ay, bx, by, cx, cy);
    lemma_three_crosses(ay, ax, by, bx, cy, cx);
    assert(turn(b, c, p) * ay + turn(c, a, p) * by + turn(a, b, p) * cy == 0) by (nonlinear_arith)
        requires
            (by * cx - cy * bx) * ay + (cy * ax - ay * cx) * by + (ay * bx - by * ax) * cy == 0,
            turn(b, c, p) == bx * cy - cx * by,
            turn(c, a, p) == cx * ay - ax * cy,
            turn(a, b, p) == ax * by - bx * ay,
    ;
}

/// Along a row twice the area of the triangle that a point makes with an edge
/// falls, from one centre of a pixel to the next, by `ONE` times the height of
/// the edge.
pub proof fn lemma_turn_along_row(from: Vector3, to: Vector3, p: Vector3, q: Vector3)
    requires
        p.y == q.y,
    ensures
        turn(from, to, q) == turn(from, to, p) - (to.y - from.y) * (q.x - p.x),
{
    lemma_expand(to.y, from.y, q.x, from.x);
    lemma_expand(to.y, from.y, p.x, from.x);
    lemma_expand(to.y, from.y, q.x, p.x);
}

} // verus!
