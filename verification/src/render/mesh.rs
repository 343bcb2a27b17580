//! Meshes: a list of vertices and a list of faces that name them.
//!
//! The vertices of a mesh are in world space, where the canvas spans from minus
//! one to one along both axes. A face names its corners by their position in the
//! vertex list, counted from one.

use super::canvas::{Canvas, Rgb, RgbCanvas};
use super::lines::{line, line_pixels};
use crate::geometry::fixed::{whole, ONE};
use crate::geometry::ops::COORD_MAX;
use crate::geometry::types::{Face, Vec3f, Vector3};
use std::collections::VecDeque;
use vstd::prelude::*;

verus! {

/// Why a mesh cannot be drawn.
#[derive(Clone, Copy, Debug, PartialEq, Eq)]
pub enum MeshError {
    /// The face at this position in the list of faces names a vertex by the number
    /// zero or by a number beyond the end of the vertex list. It is the first such
    /// face.
    BadFace(usize),
}

/// Whether each corner of `face` names one of `count` vertices.
pub open spec fn face_in_range(face: Face, count: int) -> bool {
    &&& 1 <= face.0[0] <= count
    &&& 1 <= face.0[1] <= count
    &&& 1 <= face.0[2] <= count
}

/// Whether every face names vertices of the list only.
pub open spec fn faces_in_range(faces: Seq<Face>, count: int) -> bool {
    forall|i: int| 0 <= i < faces.len() ==> face_in_range(#[trigger] faces[i], count)
}

/// Whether `at` is the position of the first face that names a vertex which is
/// not in the list.
pub open spec fn first_bad_face(faces: Seq<Face>, count: int, at: int) -> bool {
    &&& 0 <= at < faces.len()
    &&& !face_in_range(faces[at], count)
    &&& forall|i: int| 0 <= i < at ==> face_in_range(#[trigger] faces[i], count)
}

/// What is found of the faces of a mesh: nothing if every face names vertices of
/// the list only, else the first face that does not.
pub open spec fn validated(faces: Seq<Face>, count: int, result: Result<(), MeshError>) -> bool {
    match result {
        Ok(_) => faces_in_range(faces, count),
        Err(MeshError::BadFace(at)) => first_bad_face(faces, count, at as int),
    }
}

/// The corner `k` of `face`, looked up in `vertices`.
pub open spec fn corner(vertices: Seq<Vec3f>, face: Face, k: int) -> Vector3 {
    vertices[face.vertex_index(k)]@
}

/// Where the canvas shows the world-space point `v`: the canvas spans from minus
/// one to one along both axes, and the depth is dropped.
pub open spec fn to_screen(v: Vector3, width: int, height: int) -> Vector3 {
    Vector3 { x: (v.x + ONE) * (width / 2), y: (v.y + ONE) * (height / 2), z: 0 }
}

/// The pixel that holds the world-space point `v`.
pub open spec fn to_pixel(v: Vector3, width: int, height: int) -> (int, int) {
    (whole(to_screen(v, width, height).x), whole(to_screen(v, width, height).y))
}

/// Whether the place where a canvas of the given size shows the world-space
/// point `v` is within the limit of the coordinates.
pub open spec fn placeable(v: Vector3, width: int, height: int) -> bool {
    to_screen(v, width, height).within(COORD_MAX as int)
}

/// Whether the world-space point `v` and the place where a canvas of the given
/// size shows it are within the limit of the coordinates.
pub open spec fn drawable(v: Vector3, width: int, height: int) -> bool {
    v.within(COORD_MAX as int) && placeable(v, width, height)
}

/// Where a canvas that is `size` wide shows the world-space coordinate `c`.
fn spread(c: i64, size: u32) -> (p: i128)
    ensures
        p == (c + ONE) * (size / 2),
{
    let shifted: i128 = c as i128 + ONE as i128;
    let half: i128 = (size / 2) as i128;
    assert(-0x1_0000_0000_0000_0000 * 0x1_0000_0000 <= shifted * half <= 0x1_0000_0000_0000_0000
        * 0x1_0000_0000) by (nonlinear_arith)
        requires
            -0x1_0000_0000_0000_0000 <= shifted <= 0x1_0000_0000_0000_0000,
            0 <= half <= 0x1_0000_0000,
    ;
    shifted * half
}

/// Whether the place where a canvas of the given size shows the world-space
/// point `v` is within the limit of the coordinates.
pub fn is_placeable(v: &Vec3f, width: u32, height: u32) -> (yes: bool)
    ensures
        yes == placeable(v@, width as int, height as int),
{
    let x: i128 = spread(v.x(), width);
    let y: i128 = spread(v.y(), height);
    let limit = COORD_MAX as i128;
    -limit <= x && x <= limit && -limit <= y && y <= limit
}

/// Whether the world-space point `v` and the place where a canvas of the given
/// size shows it are within the limit of the coordinates.
pub fn is_drawable(v: &Vec3f, width: u32, height: u32) -> (yes: bool)
    ensures
        yes == drawable(v@, width as int, height as int),
{
    v.is_within(COORD_MAX) && is_placeable(v, width, height)
}

/// Finds out whether every face names vertices of a list of `count` vertices
/// only, and if not, which is the first that does not.
pub fn validate_faces(faces: &VecDeque<Face>, count: usize) -> (result: Result<(), MeshError>)
    ensures
        validated(faces@, count as int, result),
{
    let mut i: usize = 0;
    while i < faces.len()
        invariant
            0 <= i <= faces@.len(),
            forall|j: int| 0 <= j < i ==> face_in_range(#[trigger] faces@[j], count as int),
        decreases faces@.len() - i,
    {
        let face = &faces[i];
        let good = 1 <= face.0[0] && face.0[0] <= count && 1 <= face.0[1] && face.0[1] <= count && 1
            <= face.0[2] && face.0[2] <= count;
        if !good {
            return Err(MeshError::BadFace(i));
        }
        i = i + 1;
    }
    Ok(())
}

/// The three corners of `face`, looked up in `vertices`.
pub fn corners(vertices: &VecDeque<Vec3f>, face: &Face) -> (found: (Vec3f, Vec3f, Vec3f))
    requires
        face_in_range(*face, vertices@.len() as int),
    ensures
        found.0@ == corner(vertices@, *face, 0),
        found.1@ == corner(vertices@, *face, 1),
        found.2@ == corner(vertices@, *face, 2),
{
    (
        vertices[face.get_vertex_index(0)],
        vertices[face.get_vertex_index(1)],
        vertices[face.get_vertex_index(2)],
    )
}

/// Where a canvas of the given size shows the world-space point `v`, with the
/// depth `depth`. The place must be within the range of `i64`.
pub fn project(v: &Vec3f, width: u32, height: u32, depth: i64) -> (p: Vec3f)
    requires
        to_screen(v@, width as int, height as int).fits(),
    ensures
        p@ == (Vector3 { z: depth as int, ..to_screen(v@, width as int, height as int) }),
{
    let x: i128 = spread(v.x(), width);
    let y: i128 = spread(v.y(), height);
    Vec3f([x as i64, y as i64, depth])
}

/// The pixels of the edge of `face` that leaves the corner `k`.
pub open spec fn edge_pixels(vertices: Seq<Vec3f>, face: Face, k: int, width: int, height: int) -> Set<
    (int, int),
> {
    let from = to_pixel(corner(vertices, face, k), width, height);
    let to = to_pixel(corner(vertices, face, (k + 1) % 3), width, height);
    line_pixels(from.0, from.1, to.0, to.1)
}

/// The pixels of the edges of the faces before face `f`, and of the edges of face
/// `f` that leave a corner before corner `k`.
pub open spec fn wire_before(
    vertices: Seq<Vec3f>,
    faces: Seq<Face>,
    width: int,
    height: int,
    f: int,
    k: int,
) -> Set<(int, int)> {
    Set::new(
        |p: (int, int)|
            exists|g: int, j: int|
                0 <= g < faces.len() && 0 <= j < 3 && (g < f || (g == f && j < k))
                    && #[trigger] edge_pixels(vertices, faces[g], j, width, height).contains(p),
    )
}

/// The pixels of all edges of all faces.
pub open spec fn wire_pixels(vertices: Seq<Vec3f>, faces: Seq<Face>, width: int, height: int) -> Set<
    (int, int),
> {
    Set::new(
        |p: (int, int)|
            exists|f: int, k: int|
                0 <= f < faces.len() && 0 <= k < 3 && #[trigger] edge_pixels(
                    vertices,
                    faces[f],
                    k,
                    width,
                    height,
                ).contains(p),
    )
}

/// The pixel that holds the world-space point `v`.
fn pixel_of(v: &Vec3f, width: u32, height: u32) -> (p: (i64, i64))
    requires
        to_screen(v@, width as int, height as int).fits(),
    ensures
        (p.0 as int, p.1 as int) == to_pixel(v@, width as int, height as int),
{
    let s = project(v, width, height, 0);
    (s.x() / ONE, s.y() / ONE)
}

/// Draws the edges of every face in `color`. A face that names a vertex which
/// is not in the list stops the drawing before it begins. A corner may lie off the
/// canvas: the pixels of an edge that the canvas does not hold are passed over.
/// The place where the canvas shows a corner must not leave the range of `i64`.
pub fn wire_frame(
    image: &mut RgbCanvas,
    color: Rgb,
    vertices: &VecDeque<Vec3f>,
    faces: &VecDeque<Face>,
) -> (result: Result<(), MeshError>)
    requires
        forall|f: int, k: int|
            0 <= f < faces@.len() && 0 <= k < 3 && face_in_range(
                faces@[f],
                vertices@.len() as int,
            ) ==> to_screen(
                #[trigger] corner(vertices@, faces@[f], k),
                old(image)@.width as int,
                old(image)@.height as int,
            ).fits(),
    ensures
        validated(faces@, vertices@.len() as int, result),
        result is Err ==> final(image)@ == old(image)@,
        result is Ok ==> final(image)@ == old(image)@.fill(
            wire_pixels(vertices@, faces@, old(image)@.width as int, old(image)@.height as int),
            color,
        ),
{
    let outcome = validate_faces(faces, vertices.len());
    if outcome.is_err() {
        return outcome;
    }
    let width = image.width();
    let height = image.height();
    let ghost start = image@;
    let ghost w = width as int;
    let ghost h = height as int;
    assert(start.fill(wire_before(vertices@, faces@, w, h, 0, 0), color).pixels =~= start.pixels);
    let mut f: usize = 0;
    while f < faces.len()
        invariant
            0 <= f <= faces@.len(),
            faces_in_range(faces@, vertices@.len() as int),
            forall|f: int, k: int|
                0 <= f < faces@.len() && 0 <= k < 3 && face_in_range(
                    faces@[f],
                    vertices@.len() as int,
                ) ==> to_screen(#[trigger] corner(vertices@, faces@[f], k), w, h).fits(),
            w == width,
            h == height,
            image@.width == width,
            image@.height == height,
            image@ == start.fill(wire_before(vertices@, faces@, w, h, f as int, 0), color),
        decreases faces@.len() - f,
    {
        let face = &faces[f];
        let mut i: usize = 0;
        while i < 3
            invariant
                0 <= f < faces@.len(),
                0 <= i <= 3,
                *face == faces@[f as int],
                faces_in_range(faces@, vertices@.len() as int),
                forall|f: int, k: int|
                    0 <= f < faces@.len() && 0 <= k < 3 && face_in_range(
                        faces@[f],
                        vertices@.len() as int,
                    ) ==> to_screen(#[trigger] corner(vertices@, faces@[f], k), w, h).fits(),
                w == width,
                h == height,
                image@.width == width,
                image@.height == height,
                image@ == start.fill(wire_before(vertices@, faces@, w, h, f as int, i as int), color),
            decreases 3 - i,
        {
            let v0 = &vertices[face.get_vertex_index(i)];
            let v1 = &vertices[face.get_vertex_index((i + 1) % 3)];
            assert(v0@ == corner(vertices@, faces@[f as int], i as int));
            assert(v1@ == corner(vertices@, faces@[f as int], (i + 1) % 3));
            let (x0, y0) = pixel_of(v0, width, height);
            let (x1, y1) = pixel_of(v1, width, height);
            line(x0, y0, x1, y1, image, color);
            proof {
                let before = wire_before(vertices@, faces@, w, h, f as int, i as int);
                let after = wire_before(vertices@, faces@, w, h, f as int, i + 1);
                let edge = edge_pixels(vertices@, faces@[f as int], i as int, w, h);
                assert forall|p: (int, int)| after.contains(p) implies before.contains(p)
                    || edge.contains(p) by {
                    let (g, j) = choose|g: int, j: int|
                        0 <= g < faces@.len() && 0 <= j < 3 && (g < f || (g == f && j < i + 1))
                            && #[trigger] edge_pixels(vertices@, faces@[g], j, w, h).contains(p);
                    if g == f && j == i {
                    } else {
                        assert(0 <= g < faces@.len() && 0 <= j < 3 && (g < f || (g == f && j < i))
                            && edge_pixels(vertices@, faces@[g], j, w, h).contains(p));
                    }
                }
                assert forall|p: (int, int)| before.contains(p) || edge.contains(p) implies after.contains(
                    p,
                ) by {
                    if edge.contains(p) {
                        assert(edge_pixels(vertices@, faces@[f as int], i as int, w, h).contains(p));
                    } else {
                        let (g, j) = choose|g: int, j: int|
                            0 <= g < faces@.len() && 0 <= j < 3 && (g < f || (g == f && j < i))
                                && #[trigger] edge_pixels(vertices@, faces@[g], j, w, h).contains(p);
                        assert(0 <= g < faces@.len() && 0 <= j < 3 && (g < f || (g == f && j < i + 1))
                            && edge_pixels(vertices@, faces@[g], j, w, h).contains(p));
                    }
                }
                assert(after =~= before.union(edge));
                assert(image@.pixels =~= start.fill(after, color).pixels);
            }
            i = i + 1;
        }
        proof {
            let before = wire_before(vertices@, faces@, w, h, f as int, 3);
            let after = wire_before(vertices@, faces@, w, h, f + 1, 0);
            assert forall|p: (int, int)| after.contains(p) implies before.contains(p) by {
                let (g, j) = choose|g: int, j: int|
                    0 <= g < faces@.len() && 0 <= j < 3 && (g < f + 1 || (g == f + 1 && j < 0))
                        && #[trigger] edge_pixels(vertices@, faces@[g], j, w, h).contains(p);
                assert(0 <= g < faces@.len() && 0 <= j < 3 && (g < f || (g == f && j < 3))
                    && edge_pixels(vertices@, faces@[g], j, w, h).contains(p));
            }
            assert forall|p: (int, int)| before.contains(p) implies after.contains(p) by {
                let (g, j) = choose|g: int, j: int|
                    0 <= g < faces@.len() && 0 <= j < 3 && (g < f || (g == f && j < 3))
                        && #[trigger] edge_pixels(vertices@, faces@[g], j, w, h).contains(p);
                assert(0 <= g < faces@.len() && 0 <= j < 3 && (g < f + 1 || (g == f + 1 && j < 0))
                    && edge_pixels(vertices@, faces@[g], j, w, h).contains(p));
            }
            assert(after =~= before);
        }
        f = f + 1;
    }
    proof {
        let done = wire_before(vertices@, faces@, w, h, f as int, 0);
        let all = wire_pixels(vertices@, faces@, w, h);
        assert forall|p: (int, int)| done.contains(p) implies all.contains(p) by {
            let (g, j) = choose|g: int, j: int|
                0 <= g < faces@.len() && 0 <= j < 3 && (g < f || (g == f && j < 0))
                    && #[trigger] edge_pixels(vertices@, faces@[g], j, w, h).contains(p);
            assert(0 <= g < faces@.len() && 0 <= j < 3 && edge_pixels(vertices@, faces@[g], j, w, h).contains(
                p,
            ));
        }
        assert forall|p: (int, int)| all.contains(p) implies done.contains(p) by {
            let (g, j) = choose|g: int, j: int|
                0 <= g < faces@.len() && 0 <= j < 3 && #[trigger] edge_pixels(
                    vertices@,
                    faces@[g],
                    j,
                    w,
                    h,
                ).contains(p);
            assert(0 <= g < faces@.len() && 0 <= j < 3 && (g < f || (g == f && j < 0)) && edge_pixels(
                vertices@,
                faces@[g],
                j,
                w,
                h,
            ).contains(p));
        }
        assert(done =~= all);
    }
    Ok(())
}

} // verus!
