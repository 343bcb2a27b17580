//! The value types of the renderer: fixed-point vectors and faces.

use super::fixed::{divide, fits, multiply, product, ratio};
use std::ops::{Add, Div, Index, Mul, Sub};
use vstd::prelude::*;
use vstd::std_specs::ops::{AddSpecImpl, DivSpecImpl, MulSpecImpl, SubSpecImpl};

verus! {

/// A vector of three integers: what a [`Vec3f`] stands for.
pub struct Vector3 {
    pub x: int,
    pub y: int,
    pub z: int,
}

impl Vector3 {
    /// Whether each component can be held in an `i64`.
    pub open spec fn fits(self) -> bool {
        fits(self.x) && fits(self.y) && fits(self.z)
    }

    /// Whether each component lies between `-limit` and `limit`.
    pub open spec fn within(self, limit: int) -> bool {
        -limit <= self.x <= limit && -limit <= self.y <= limit && -limit <= self.z <= limit
    }

    /// Whether each of the first two components lies between `-limit` and
    /// `limit`. The third, the depth, is left out.
    pub open spec fn flat_within(self, limit: int) -> bool {
        -limit <= self.x <= limit && -limit <= self.y <= limit
    }

    /// The sum of the two vectors.
    pub open spec fn plus(self, other: Vector3) -> Vector3 {
        Vector3 { x: self.x + other.x, y: self.y + other.y, z: self.z + other.z }
    }

    /// The difference of the two vectors.
    pub open spec fn minus(self, other: Vector3) -> Vector3 {
        Vector3 { x: self.x - other.x, y: self.y - other.y, z: self.z - other.z }
    }

    /// The vector with `s` taken from each component.
    pub open spec fn lowered(self, s: int) -> Vector3 {
        Vector3 { x: self.x - s, y: self.y - s, z: self.z - s }
    }

    /// The vector with each component multiplied by the fixed-point number `s`.
    pub open spec fn scaled(self, s: int) -> Vector3 {
        Vector3 { x: product(self.x, s), y: product(self.y, s), z: product(self.z, s) }
    }

    /// The vector with each component divided by the fixed-point number `s`.
    pub open spec fn shrunk(self, s: int) -> Vector3
        recommends
            s != 0,
    {
        Vector3 { x: ratio(self.x, s), y: ratio(self.y, s), z: ratio(self.z, s) }
    }

    /// The component at `index`: 0, 1 or 2.
    pub open spec fn at(self, index: int) -> int
        recommends
            0 <= index <= 2,
    {
        if index == 0 {
            self.x
        } else if index == 1 {
            self.y
        } else {
            self.z
        }
    }
}

/// A vector of three fixed-point components.
#[derive(Clone, Copy, Debug, PartialEq, Eq)]
pub struct Vec3f(pub [i64; 3]);

impl View for Vec3f {
    type V = Vector3;

    open spec fn view(&self) -> Vector3 {
        Vector3 { x: self.0[0] as int, y: self.0[1] as int, z: self.0[2] as int }
    }
}

impl Vec3f {
    /// The vector that stands for `v`.
    pub open spec fn of(v: Vector3) -> Vec3f
        recommends
            v.fits(),
    {
        Vec3f([v.x as i64, v.y as i64, v.z as i64])
    }

    /// Whether each component lies between `-limit` and `limit`.
    pub fn is_within(&self, limit: i64) -> (yes: bool)
        ensures
            yes == self@.within(limit as int),
    {
        if limit < 0 {
            return false;
        }
        -limit <= self.0[0] && self.0[0] <= limit && -limit <= self.0[1] && self.0[1] <= limit
            && -limit <= self.0[2] && self.0[2] <= limit
    }

    /// Whether each of the first two components lies between `-limit` and
    /// `limit`.
    pub fn is_flat_within(&self, limit: i64) -> (yes: bool)
        ensures
            yes == self@.flat_within(limit as int),
    {
        if limit < 0 {
            return false;
        }
        -limit <= self.0[0] && self.0[0] <= limit && -limit <= self.0[1] && self.0[1] <= limit
    }

    /// The three components, one after the other.
    pub fn iter(&self) -> (components: std::slice::Iter<'_, i64>)
        ensures
            components == vstd::array::spec_array_iter(&self.0),
            vstd::std_specs::iter::IteratorSpec::remaining(&components) == self.0@.as_ref(),
    {
        (&self.0).into_iter()
    }

    /// The first component.
    pub fn x(&self) -> (c: i64)
        ensures
            c == self@.x,
    {
        self.0[0]
    }

    /// The second component.
    pub fn y(&self) -> (c: i64)
        ensures
            c == self@.y,
    {
        self.0[1]
    }

    /// The third component.
    pub fn z(&self) -> (c: i64)
        ensures
            c == self@.z,
    {
        self.0[2]
    }
}

impl vstd::std_specs::core::IndexSpecImpl<usize> for Vec3f {
    open spec fn index_req(&self, index: &usize) -> bool {
        *index <= 2
    }
}

impl Index<usize> for Vec3f {
    type Output = i64;

    /// The component at `index`, which is 0, 1 or 2.
    fn index(&self, index: usize) -> (c: &i64)
        ensures
            *c == self@.at(index as int),
    {
        &self.0[index]
    }
}

impl AddSpecImpl for Vec3f {
    open spec fn obeys_add_spec() -> bool {
        true
    }

    open spec fn add_req(self, rhs: Vec3f) -> bool {
        self@.plus(rhs@).fits()
    }

    open spec fn add_spec(self, rhs: Vec3f) -> Vec3f {
        Vec3f::of(self@.plus(rhs@))
    }
}

impl Add for Vec3f {
    type Output = Vec3f;

    /// The sum, component by component.
    fn add(self, other: Vec3f) -> (sum: Vec3f) {
        Vec3f([self.x() + other.x(), self.y() + other.y(), self.z() + other.z()])
    }
}

impl SubSpecImpl for Vec3f {
    open spec fn obeys_sub_spec() -> bool {
        true
    }

    open spec fn sub_req(self, rhs: Vec3f) -> bool {
        self@.minus(rhs@).fits()
    }

    open spec fn sub_spec(self, rhs: Vec3f) -> Vec3f {
        Vec3f::of(self@.minus(rhs@))
    }
}

impl Sub for Vec3f {
    type Output = Vec3f;

    /// The difference, component by component.
    fn sub(self, other: Vec3f) -> (difference: Vec3f) {
        Vec3f([self.x() - other.x(), self.y() - other.y(), self.z() - other.z()])
    }
}

impl SubSpecImpl<i64> for Vec3f {
    open spec fn obeys_sub_spec() -> bool {
        true
    }

    open spec fn sub_req(self, rhs: i64) -> bool {
        self@.lowered(rhs as int).fits()
    }

    open spec fn sub_spec(self, rhs: i64) -> Vec3f {
        Vec3f::of(self@.lowered(rhs as int))
    }
}

impl Sub<i64> for Vec3f {
    type Output = Vec3f;

    /// The vector with `other` taken from each component.
    fn sub(self, other: i64) -> (difference: Vec3f) {
        Vec3f([self.x() - other, self.y() - other, self.z() - other])
    }
}

impl MulSpecImpl<i64> for Vec3f {
    open spec fn obeys_mul_spec() -> bool {
        true
    }

    open spec fn mul_req(self, rhs: i64) -> bool {
        self@.scaled(rhs as int).fits()
    }

    open spec fn mul_spec(self, rhs: i64) -> Vec3f {
        Vec3f::of(self@.scaled(rhs as int))
    }
}

impl Mul<i64> for Vec3f {
    type Output = Vec3f;

    /// The vector with each component multiplied by the fixed-point number `rhs`.
    fn mul(self, rhs: i64) -> (scaled: Vec3f) {
        Vec3f([multiply(self.x(), rhs), multiply(self.y(), rhs), multiply(self.z(), rhs)])
    }
}

impl DivSpecImpl<i64> for Vec3f {
    open spec fn obeys_div_spec() -> bool {
        true
    }

    open spec fn div_req(self, rhs: i64) -> bool {
        rhs != 0 && self@.shrunk(rhs as int).fits()
    }

    open spec fn div_spec(self, rhs: i64) -> Vec3f {
        Vec3f::of(self@.shrunk(rhs as int))
    }
}

impl Div<i64> for Vec3f {
    type Output = Vec3f;

    /// The vector with each component divided by the fixed-point number `rhs`,
    /// which is not zero.
    fn div(self, rhs: i64) -> (shrunk: Vec3f) {
        Vec3f([divide(self.x(), rhs), divide(self.y(), rhs), divide(self.z(), rhs)])
    }
}

/// A face of a mesh: three vertex numbers, counted from one.
#[derive(Debug, PartialEq, Eq)]
pub struct Face(pub [usize; 3]);

impl Face {
    /// The position in a vertex list of the corner `index`, counted from zero.
    pub open spec fn vertex_index(&self, index: int) -> int {
        self.0[index] - 1
    }

    /// The position in a vertex list of the corner `index` (0, 1 or 2).
    pub fn get_vertex_index(&self, index: usize) -> (position: usize)
        requires
            index < 3,
            self.0[index as int] >= 1,
        ensures
            position == self.vertex_index(index as int),
    {
        self.0[index] - 1
    }
}

} // verus!
