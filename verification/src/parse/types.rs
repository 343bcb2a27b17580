//! What a mesh file holds: vertices and faces.

use crate::geometry::fixed::multiply;
use crate::geometry::types::{Face, Vec3f, Vector3};
use std::ops::{Add, Mul, Sub};
use vstd::prelude::*;
use vstd::std_specs::ops::{AddSpecImpl, MulSpecImpl, SubSpecImpl};

verus! {

/// A vertex as a mesh file gives it: three fixed-point coordinates.
#[derive(Clone, Copy, Debug, PartialEq, Eq)]
pub struct ObjVertex(pub [i64; 3]);

impl View for ObjVertex {
    type V = Vector3;

    open spec fn view(&self) -> Vector3 {
        Vector3 { x: self.0[0] as int, y: self.0[1] as int, z: self.0[2] as int }
    }
}

impl ObjVertex {
    /// The vertex that stands for `v`.
    pub open spec fn of(v: Vector3) -> ObjVertex
        recommends
            v.fits(),
    {
        ObjVertex([v.x as i64, v.y as i64, v.z as i64])
    }

    /// The first coordinate.
    pub fn x(&self) -> (c: i64)
        ensures
            c == self@.x,
    {
        self.0[0]
    }

    /// The second coordinate.
    pub fn y(&self) -> (c: i64)
        ensures
            c == self@.y,
    {
        self.0[1]
    }

    /// The third coordinate.
    pub fn z(&self) -> (c: i64)
        ensures
            c == self@.z,
    {
        self.0[2]
    }

    /// The same point as a vector.
    pub fn to_vec3f(&self) -> (v: Vec3f)
        ensures
            v@ == self@,
    {
        Vec3f([self.0[0], self.0[1], self.0[2]])
    }
}

impl AddSpecImpl for ObjVertex {
    open spec fn obeys_add_spec() -> bool {
        true
    }

    open spec fn add_req(self, rhs: ObjVertex) -> bool {
        self@.plus(rhs@).fits()
    }

    open spec fn add_spec(self, rhs: ObjVertex) -> ObjVertex {
        ObjVertex::of(self@.plus(rhs@))
    }
}

impl Add for ObjVertex {
    type Output = ObjVertex;

    /// The sum, coordinate by coordinate.
    fn add(self, other: ObjVertex) -> (sum: ObjVertex) {
        ObjVertex([self.x() + other.x(), self.y() + other.y(), self.z() + other.z()])
    }
}

impl SubSpecImpl for ObjVertex {
    open spec fn obeys_sub_spec() -> bool {
        true
    }

    open spec fn sub_req(self, rhs: ObjVertex) -> bool {
        self@.minus(rhs@).fits()
    }

    open spec fn sub_spec(self, rhs: ObjVertex) -> ObjVertex {
        ObjVertex::of(self@.minus(rhs@))
    }
}

impl Sub for ObjVertex {
    type Output = ObjVertex;

    /// The difference, coordinate by coordinate.
    fn sub(self, other: ObjVertex) -> (difference: ObjVertex) {
        ObjVertex([self.x() - other.x(), self.y() - other.y(), self.z() - other.z()])
    }
}

impl MulSpecImpl<i64> for ObjVertex {
    open spec fn obeys_mul_spec() -> bool {
        true
    }

    open spec fn mul_req(self, rhs: i64) -> bool {
        self@.scaled(rhs as int).fits()
    }

    open spec fn mul_spec(self, rhs: i64) -> ObjVertex {
        ObjVertex::of(self@.scaled(rhs as int))
    }
}

impl Mul<i64> for ObjVertex {
    type Output = ObjVertex;

    /// The vertex with each coordinate multiplied by the fixed-point number `rhs`.
    fn mul(self, rhs: i64) -> (scaled: ObjVertex) {
        ObjVertex([multiply(self.x(), rhs), multiply(self.y(), rhs), multiply(self.z(), rhs)])
    }
}

/// A face as a mesh file gives it: three vertex numbers, counted from one.
#[derive(Debug, PartialEq, Eq)]
pub struct ObjFace(pub [usize; 3]);

impl ObjFace {
    /// The position in a vertex list of the corner `index`, counted from zero.
    pub open spec fn vertex_index(&self, index: int) -> int {
        self.0[index] - 1
    }

    /// The position in a vertex list of the corner `index` (0, 1 or 2).
    pub fn get_vertex_index(&self, index: usize) -> (position: usize)
        requires
            index < 3,
            self.0[index as int] >= 1,
        ensures
            position == self.vertex_index(index as int),
    {
        self.0[index] - 1
    }

    /// The same face for the renderer.
    pub fn to_face(&self) -> (face: Face)
        ensures
            face.0 == self.0,
    {
        Face([self.0[0], self.0[1], self.0[2]])
    }
}

} // verus!
