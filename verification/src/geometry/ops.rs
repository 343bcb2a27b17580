//! Products of vectors, normalisation and barycentric coordinates.

use super::fixed::{
    fits, isqrt, lemma_product_bounded, lemma_product_odd, lemma_product_zero,
    lemma_ratio_basics, lemma_ratio_bounded, lemma_ratio_shrinks, multiply_wide, product, ratio,
    root, ONE,
};
use super::types::{Vec3f, Vector3};
use vstd::prelude::*;

verus! {

/// The largest magnitude of a coordinate of a point that is drawn: 8192 in fixed
/// point. Within this limit no step on the way to a pixel leaves the range of
/// `i64`.
pub const COORD_MAX: i64 = 0x2000_0000_0000;

/// What can go wrong in a geometric operation.
#[derive(Clone, Copy, Debug, PartialEq, Eq)]
pub enum GeometryError {
    /// A vector of length zero was to be normalised.
    DivisionByZero,
}

/// The cross product of `a` and `b`.
pub open spec fn cross(a: Vector3, b: Vector3) -> Vector3 {
    Vector3 {
        x: product(a.y, b.z) - product(a.z, b.y),
        y: product(a.z, b.x) - product(a.x, b.z),
        z: product(a.x, b.y) - product(a.y, b.x),
    }
}

/// The dot product of `a` and `b`.
pub open spec fn dot(a: Vector3, b: Vector3) -> int {
    product(a.x, b.x) + product(a.y, b.y) + product(a.z, b.z)
}

/// The length of `v`, rounded down.
pub open spec fn length(v: Vector3) -> int {
    root(v.x * v.x + v.y * v.y + v.z * v.z)
}

/// The vector of length one in the direction of `v`.
pub open spec fn unit(v: Vector3) -> Vector3 {
    v.shrunk(length(v))
}

/// The cross product of two vectors. Each component of it must be within the
/// range of `i64`; what is worked out on the way to it need not be.
pub fn cross_product(vec1: Vec3f, vec2: Vec3f) -> (normal: Vec3f)
    requires
        cross(vec1@, vec2@).fits(),
    ensures
        normal@ == cross(vec1@, vec2@),
{
    let x: i128 = multiply_wide(vec1.y(), vec2.z()) - multiply_wide(vec1.z(), vec2.y());
    let y: i128 = multiply_wide(vec1.z(), vec2.x()) - multiply_wide(vec1.x(), vec2.z());
    let z: i128 = multiply_wide(vec1.x(), vec2.y()) - multiply_wide(vec1.y(), vec2.x());
    Vec3f([x as i64, y as i64, z as i64])
}

/// The dot product of two vectors. It must be within the range of `i64`; what is
/// worked out on the way to it need not be.
pub fn dot_product(vec1: Vec3f, vec2: Vec3f) -> (d: i64)
    requires
        fits(dot(vec1@, vec2@)),
    ensures
        d == dot(vec1@, vec2@),
{
    let wide: i128 = multiply_wide(vec1.x(), vec2.x()) + multiply_wide(vec1.y(), vec2.y())
        + multiply_wide(vec1.z(), vec2.z());
    wide as i64
}

/// A component of a vector is no longer than the vector.
proof fn lemma_component_bounded(c: int, rest: int, len: int)
    requires
        0 <= rest,
        0 <= len,
        c * c + rest < (len + 1) * (len + 1),
    ensures
        -len <= c <= len,
{
    if c > len {
        assert(c * c >= (len + 1) * (len + 1)) by (nonlinear_arith)
            requires
                c >= len + 1,
                len >= 0,
        ;
    }
    if c < -len {
        assert(c * c >= (len + 1) * (len + 1)) by (nonlinear_arith)
            requires
                -c >= len + 1,
                len >= 0,
        ;
    }
}

/// One component of the unit vector: `c` divided by the length `len`.
fn unit_component(c: i64, len: u64) -> (q: i64)
    requires
        0 < len,
        -len <= c <= len,
    ensures
        q == ratio(c as int, len as int),
{
    proof {
        lemma_ratio_bounded(c as int, len as int);
    }
    let wide: i128 = (c as i128) * (ONE as i128);
    (wide / (len as i128)) as i64
}

/// The vector of length one in the direction of `v`. A vector without a
/// direction, the zero vector, is refused.
pub fn normalize(v: Vec3f) -> (result: Result<Vec3f, GeometryError>)
    ensures
        result is Err <==> v@ == (Vector3 { x: 0, y: 0, z: 0 }),
        result is Err <==> length(v@) == 0,
        result is Err ==> result == Err::<Vec3f, GeometryError>(GeometryError::DivisionByZero),
        result is Ok ==> result->Ok_0@ == unit(v@) && unit(v@).within(ONE as int),
{
    let x: i128 = v.x() as i128;
    let y: i128 = v.y() as i128;
    let z: i128 = v.z() as i128;
    proof {
        assert(0 <= x * x <= 0x8000_0000_0000_0000 * 0x8000_0000_0000_0000) by (nonlinear_arith)
            requires
                -0x8000_0000_0000_0000 <= x < 0x8000_0000_0000_0000,
        ;
        assert(0 <= y * y <= 0x8000_0000_0000_0000 * 0x8000_0000_0000_0000) by (nonlinear_arith)
            requires
                -0x8000_0000_0000_0000 <= y < 0x8000_0000_0000_0000,
        ;
        assert(0 <= z * z <= 0x8000_0000_0000_0000 * 0x8000_0000_0000_0000) by (nonlinear_arith)
            requires
                -0x8000_0000_0000_0000 <= z < 0x8000_0000_0000_0000,
        ;
    }
    let squares: u128 = (x * x) as u128 + (y * y) as u128 + (z * z) as u128;
    let len: u64 = isqrt(squares);
    proof {
        assert(squares == v@.x * v@.x + v@.y * v@.y + v@.z * v@.z);
        assert(len == length(v@));
        if len == 0 {
            assert((len + 1) * (len + 1) == 1) by (nonlinear_arith)
                requires
                    len == 0,
            ;
            assert(x != 0 ==> x * x > 0) by (nonlinear_arith);
            assert(y != 0 ==> y * y > 0) by (nonlinear_arith);
            assert(z != 0 ==> z * z > 0) by (nonlinear_arith);
        } else {
            assert(squares >= 1) by (nonlinear_arith)
                requires
                    len >= 1,
                    squares >= len * len,
            ;
            assert(x == 0 && y == 0 && z == 0 ==> x * x + y * y + z * z == 0) by (nonlinear_arith);
        }
        lemma_component_bounded(x as int, y * y + z * z, len as int);
        lemma_component_bounded(y as int, x * x + z * z, len as int);
        lemma_component_bounded(z as int, x * x + y * y, len as int);
    }
    if len == 0 {
        return Err(GeometryError::DivisionByZero);
    }
    proof {
        lemma_ratio_bounded(x as int, len as int);
        lemma_ratio_bounded(y as int, len as int);
        lemma_ratio_bounded(z as int, len as int);
    }
    Ok(
        Vec3f(
            [
                unit_component(v.x(), len),
                unit_component(v.y(), len),
                unit_component(v.z(), len),
            ],
        ),
    )
}

/// The two vectors whose cross product gives the barycentric coordinates of `p`
/// in the triangle `a`, `b`, `c`: one built from the first components, one from
/// the second.
pub open spec fn legs(a: Vector3, b: Vector3, c: Vector3, p: Vector3) -> (Vector3, Vector3) {
    (
        Vector3 { x: c.x - a.x, y: b.x - a.x, z: a.x - p.x },
        Vector3 { x: c.y - a.y, y: b.y - a.y, z: a.y - p.y },
    )
}

/// Twice the area of the triangle `a`, `b`, `c` as seen from above, rounded: above
/// zero if the way from `a` over `b` to `c` turns right, below zero if it turns
/// left. It is the third component of the cross product of the legs, whatever the
/// point.
pub open spec fn area(a: Vector3, b: Vector3, c: Vector3) -> int {
    product(c.x - a.x, b.y - a.y) - product(b.x - a.x, c.y - a.y)
}

/// Whether the triangle is too thin for its barycentric coordinates to be trusted.
pub open spec fn degenerate(a: Vector3, b: Vector3, c: Vector3) -> bool {
    -ONE < area(a, b, c) < ONE
}

/// The coordinates that a degenerate triangle gives to every point. The first is
/// negative, so no point is inside such a triangle.
pub open spec fn outside() -> Vector3 {
    Vector3 { x: -ONE, y: ONE as int, z: ONE as int }
}

/// The barycentric coordinates of `p` in the triangle `a`, `b`, `c`.
pub open spec fn weights(a: Vector3, b: Vector3, c: Vector3, p: Vector3) -> Vector3 {
    let (first, second) = legs(a, b, c, p);
    let u = cross(first, second);
    if degenerate(a, b, c) {
        outside()
    } else {
        let n = u.shrunk(u.z);
        Vector3 { x: ONE - (n.x + n.y), y: n.y, z: n.x }
    }
}

/// Whether barycentric coordinates are those of a point inside the triangle or
/// on its boundary.
pub open spec fn inside(w: Vector3) -> bool {
    w.x >= 0 && w.y >= 0 && w.z >= 0
}

/// The cross product of the legs stays well inside the range of `i64`.
pub proof fn lemma_legs_bounded(a: Vector3, b: Vector3, c: Vector3, p: Vector3)
    requires
        a.flat_within(COORD_MAX as int),
        b.flat_within(COORD_MAX as int),
        c.flat_within(COORD_MAX as int),
        p.flat_within(COORD_MAX as int),
    ensures
        cross(legs(a, b, c, p).0, legs(a, b, c, p).1).within(0x2000_0000_0000_0000),
        cross(legs(a, b, c, p).0, legs(a, b, c, p).1).z == area(a, b, c),
{
    let (f, s) = legs(a, b, c, p);
    let l: int = 0x4000_0000_0000;
    lemma_product_bounded(f.y, s.z, l, l);
    lemma_product_bounded(f.z, s.y, l, l);
    lemma_product_bounded(f.z, s.x, l, l);
    lemma_product_bounded(f.x, s.z, l, l);
    lemma_product_bounded(f.x, s.y, l, l);
    lemma_product_bounded(f.y, s.x, l, l);
    assert((l * l) / (ONE as int) == 0x1000_0000_0000_0000) by (nonlinear_arith)
        requires
            l == 0x4000_0000_0000,
            ONE == 0x1_0000_0000,
    ;
}

/// The barycentric coordinates of `point` in the triangle whose corners are the
/// first three entries of `simplex`. Only the first two components of each vector
/// are read, and only they are held to the limit [`COORD_MAX`], 8192 in fixed
/// point: beyond it the areas behind the coordinates leave the range of `i64`. A
/// degenerate triangle gives every point the coordinates [`outside`].
pub fn barycentric(simplex: Vec<&Vec3f>, point: &Vec3f) -> (w: Vec3f)
    requires
        simplex.len() >= 3,
        simplex[0]@.flat_within(COORD_MAX as int),
        simplex[1]@.flat_within(COORD_MAX as int),
        simplex[2]@.flat_within(COORD_MAX as int),
        point@.flat_within(COORD_MAX as int),
    ensures
        w@ == weights(simplex[0]@, simplex[1]@, simplex[2]@, point@),
        w@.x + w@.y + w@.z == ONE,
{
    let a: &Vec3f = simplex[0];
    let b: &Vec3f = simplex[1];
    let c: &Vec3f = simplex[2];
    proof {
        lemma_legs_bounded(a@, b@, c@, point@);
    }
    let perpendicular_vec = cross_product(
        Vec3f([c.x() - a.x(), b.x() - a.x(), a.x() - point.x()]),
        Vec3f([c.y() - a.y(), b.y() - a.y(), a.y() - point.y()]),
    );
    let twice_area = perpendicular_vec.z();
    if -ONE < twice_area && twice_area < ONE {
        Vec3f([-ONE, ONE, ONE])
    } else {
        proof {
            lemma_ratio_shrinks(perpendicular_vec@.x, twice_area as int);
            lemma_ratio_shrinks(perpendicular_vec@.y, twice_area as int);
            lemma_ratio_shrinks(perpendicular_vec@.z, twice_area as int);
        }
        let normalized = perpendicular_vec / twice_area;
        Vec3f([ONE - (normalized.x() + normalized.y()), normalized.y(), normalized.x()])
    }
}

/// The three barycentric coordinates of a point add up to one, whatever the
/// triangle and the point.
pub proof fn lemma_weights_add_up(a: Vector3, b: Vector3, c: Vector3, p: Vector3)
    ensures
        weights(a, b, c, p).x + weights(a, b, c, p).y + weights(a, b, c, p).z == ONE,
{
}

/// No point is inside a degenerate triangle.
pub proof fn lemma_degenerate_holds_nothing(a: Vector3, b: Vector3, c: Vector3, p: Vector3)
    requires
        degenerate(a, b, c),
    ensures
        !inside(weights(a, b, c, p)),
{
}

/// Each corner of a triangle that is not degenerate has, in that triangle, the
/// barycentric coordinates one for itself and zero for the two others.
pub proof fn lemma_barycentric_of_corners(a: Vector3, b: Vector3, c: Vector3)
    requires
        !degenerate(a, b, c),
    ensures
        weights(a, b, c, a) == (Vector3 { x: ONE as int, y: 0, z: 0 }),
        weights(a, b, c, b) == (Vector3 { x: 0, y: ONE as int, z: 0 }),
        weights(a, b, c, c) == (Vector3 { x: 0, y: 0, z: ONE as int }),
{
    let d = area(a, b, c);
    lemma_ratio_basics(d);
    lemma_product_zero(b.x - a.x);
    lemma_product_zero(b.y - a.y);
    lemma_product_zero(c.x - a.x);
    lemma_product_zero(c.y - a.y);
    lemma_product_odd(b.x - a.x, b.y - a.y);
    lemma_product_odd(b.x - a.x, c.y - a.y);
    lemma_product_odd(c.x - a.x, b.y - a.y);
    lemma_product_odd(c.x - a.x, c.y - a.y);
    assert(a.x - b.x == -(b.x - a.x));
    assert(a.y - b.y == -(b.y - a.y));
    assert(a.x - c.x == -(c.x - a.x));
    assert(a.y - c.y == -(c.y - a.y));
}

} // verus!
