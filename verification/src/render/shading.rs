//! Shading by a directional light.
//!
//! Each face has one normal and so one shade. A face that is turned away from the
//! light, or seen edge-on by it, or that has no normal at all, is not drawn.

use super::canvas::{Canvas, Picture, Rgb, RgbCanvas, Rgba, RgbaCanvas};
use super::mesh::{
    corner, corners, drawable, face_in_range, faces_in_range, placeable, project, to_screen,
    validate_faces, validated, MeshError,
};
use super::random::{gen_range, thread_rng};
use super::triangles::{
    covered, lemma_depths_any_order, lemma_picture_any_order, lemma_slot_bounded, triangle,
    triangle_with_gamma, triangle_with_gamma_smart, Patch,
};
use crate::geometry::fixed::{lemma_product_bounded, ONE};
use crate::geometry::ops::{
    cross, cross_product, dot, dot_product, length, normalize, unit, COORD_MAX,
};
use crate::geometry::types::{Face, Vec3f, Vector3};
use std::collections::VecDeque;
use vstd::prelude::*;

verus! {

/// The normal of the triangle `a`, `b`, `c`, not yet of length one.
pub open spec fn normal(a: Vector3, b: Vector3, c: Vector3) -> Vector3 {
    cross(c.minus(a), b.minus(a))
}

/// How directly the light shines on the triangle `a`, `b`, `c`: the dot product
/// of its normal of length one and the direction of the light.
pub open spec fn intensity(a: Vector3, b: Vector3, c: Vector3, light: Vector3) -> int {
    dot(unit(normal(a, b, c)), light)
}

/// Whether the triangle has a normal and the light shines on its front.
pub open spec fn lit(a: Vector3, b: Vector3, c: Vector3, light: Vector3) -> bool {
    length(normal(a, b, c)) != 0 && intensity(a, b, c, light) > 0
}

/// The channel value of an intensity above zero: 255 times the intensity, rounded
/// to the nearest whole number, and no more than 255.
pub open spec fn channel(intensity: int) -> int {
    let rounded = (255 * intensity + ONE / 2) / (ONE as int);
    if rounded > 255 {
        255
    } else {
        rounded
    }
}

/// The opaque grey of the given level.
pub open spec fn grey(level: int) -> Rgba {
    Rgba([level as u8, level as u8, level as u8, 255u8])
}

/// The normal of a triangle within the limit of the coordinates can be held.
pub proof fn lemma_normal_fits(a: Vector3, b: Vector3, c: Vector3)
    requires
        a.within(COORD_MAX as int),
        b.within(COORD_MAX as int),
        c.within(COORD_MAX as int),
    ensures
        c.minus(a).fits(),
        b.minus(a).fits(),
        normal(a, b, c).fits(),
{
    let s = c.minus(a);
    let t = b.minus(a);
    let l: int = 2 * COORD_MAX;
    lemma_product_bounded(s.y, t.z, l, l);
    lemma_product_bounded(s.z, t.y, l, l);
    lemma_product_bounded(s.z, t.x, l, l);
    lemma_product_bounded(s.x, t.z, l, l);
    lemma_product_bounded(s.x, t.y, l, l);
    lemma_product_bounded(s.y, t.x, l, l);
    assert((l * l) / (ONE as int) == 0x1000_0000_0000_0000) by (nonlinear_arith)
        requires
            l == 0x4000_0000_0000,
            ONE == 0x1_0000_0000,
    ;
}

/// The dot product of a vector of length at most one and a vector within the
/// limit of the coordinates is at most three times that limit.
pub proof fn lemma_intensity_bounded(n: Vector3, light: Vector3)
    requires
        n.within(ONE as int),
        light.within(COORD_MAX as int),
    ensures
        -3 * COORD_MAX <= dot(n, light) <= 3 * COORD_MAX,
{
    lemma_product_bounded(n.x, light.x, ONE as int, COORD_MAX as int);
    lemma_product_bounded(n.y, light.y, ONE as int, COORD_MAX as int);
    lemma_product_bounded(n.z, light.z, ONE as int, COORD_MAX as int);
    assert((ONE * COORD_MAX) / (ONE as int) == COORD_MAX) by (nonlinear_arith)
        requires
            ONE == 0x1_0000_0000,
    ;
}

/// The shade of the face with the world-space corners `a`, `b`, `c` under the
/// light `light_dir`: the level of grey, or nothing if the face is not lit. No
/// component of a corner or of the light may be further from zero than
/// `COORD_MAX`, 8192 in fixed point: beyond it the normal leaves the range of
/// `i64`.
pub fn face_shade(a: &Vec3f, b: &Vec3f, c: &Vec3f, light_dir: Vec3f) -> (shade: Option<u8>)
    requires
        a@.within(COORD_MAX as int),
        b@.within(COORD_MAX as int),
        c@.within(COORD_MAX as int),
        light_dir@.within(COORD_MAX as int),
    ensures
        shade == if lit(a@, b@, c@, light_dir@) {
            Some(channel(intensity(a@, b@, c@, light_dir@)) as u8)
        } else {
            None
        },
        lit(a@, b@, c@, light_dir@) ==> 0 <= channel(intensity(a@, b@, c@, light_dir@)) <= 255,
{
    proof {
        lemma_normal_fits(a@, b@, c@);
    }
    let side1 = *c - *a;
    let side2 = *b - *a;
    let n = cross_product(side1, side2);
    match normalize(n) {
        Err(_) => None,
        Ok(n) => {
            proof {
                lemma_intensity_bounded(n@, light_dir@);
            }
            let intensity = dot_product(n, light_dir);
            if intensity > 0 {
                let rounded = (255 * intensity + ONE / 2) / ONE;
                if rounded > 255 {
                    Some(255)
                } else {
                    Some(rounded as u8)
                }
            } else {
                None
            }
        },
    }
}

/// A mesh under a light, seen on a canvas of a given size.
pub struct Scene {
    pub vertices: Seq<Vec3f>,
    pub faces: Seq<Face>,
    pub light: Vector3,
    pub width: int,
    pub height: int,
}

/// A picture together with the depth of what each of its pixels shows.
pub struct Frame {
    pub picture: Picture<Rgba>,
    pub depths: Seq<i64>,
}

/// The depth of a pixel at which nothing was drawn yet: below every depth that a
/// triangle can have.
pub const NOTHING: i64 = i64::MIN;

/// The depths of a canvas of the given size on which nothing was drawn yet.
pub open spec fn blank(width: int, height: int) -> Seq<i64> {
    Seq::new((width * height) as nat, |i: int| NOTHING)
}

impl Scene {
    /// Whether every face names vertices of the list only.
    pub open spec fn validated(self) -> bool {
        faces_in_range(self.faces, self.vertices.len() as int)
    }

    /// Whether every vertex, the place where the canvas shows it, and the light
    /// are within the limit of the coordinates.
    pub open spec fn bounded(self) -> bool {
        &&& self.light.within(COORD_MAX as int)
        &&& forall|i: int|
            0 <= i < self.vertices.len() ==> drawable(
                #[trigger] self.vertices[i]@,
                self.width,
                self.height,
            )
    }

    /// The corner `k` of face `f`, in world space.
    pub open spec fn world(self, f: int, k: int) -> Vector3 {
        corner(self.vertices, self.faces[f], k)
    }

    /// Whether the light shines on the front of face `f`.
    pub open spec fn is_lit(self, f: int) -> bool {
        lit(self.world(f, 0), self.world(f, 1), self.world(f, 2), self.light)
    }

    /// The colour of face `f`.
    pub open spec fn color(self, f: int) -> Rgba {
        grey(channel(intensity(self.world(f, 0), self.world(f, 1), self.world(f, 2), self.light)))
    }

    /// Where the canvas shows the corner `k` of face `f`, without depth.
    pub open spec fn flat(self, f: int, k: int) -> Vector3 {
        to_screen(self.world(f, k), self.width, self.height)
    }

    /// Where the canvas shows the corner `k` of face `f`, with the depth of the
    /// corner.
    pub open spec fn deep(self, f: int, k: int) -> Vector3 {
        Vector3 { z: self.world(f, k).z, ..self.flat(f, k) }
    }

    /// Face `f` as the triangle that is drawn for it when depths count.
    pub open spec fn patch(self, f: int) -> Patch {
        Patch {
            a: self.deep(f, 0),
            b: self.deep(f, 1),
            c: self.deep(f, 2),
            color: self.color(f),
            width: self.width,
            height: self.height,
        }
    }

    /// The picture after the first `n` faces are drawn one over the other.
    pub open spec fn plain(self, picture: Picture<Rgba>, n: nat) -> Picture<Rgba>
        decreases n,
    {
        if n == 0 {
            picture
        } else {
            let f = n - 1;
            let before = self.plain(picture, f as nat);
            if self.is_lit(f) {
                before.fill(
                    covered(
                        self.flat(f, 0),
                        self.flat(f, 1),
                        self.flat(f, 2),
                        self.width,
                        self.height,
                    ),
                    self.color(f),
                )
            } else {
                before
            }
        }
    }

    /// The frame after the first `n` faces are drawn, each where it is nearer
    /// than what was drawn before.
    pub open spec fn composed(self, frame: Frame, n: nat) -> Frame
        decreases n,
    {
        if n == 0 {
            frame
        } else {
            let f = n - 1;
            let before = self.composed(frame, f as nat);
            if self.is_lit(f) {
                Frame {
                    picture: self.patch(f).paint(before.picture, before.depths),
                    depths: self.patch(f).raise(before.depths),
                }
            } else {
                before
            }
        }
    }
}

/// Draws every face that the light shines on as a grey triangle, the brighter
/// the more directly it is lit. Faces are drawn in the order of the list, a later
/// one over an earlier one. A face that names a vertex which is not in the list
/// stops the drawing before it begins. No component of a vertex or of the light,
/// and no coordinate of the place where the canvas shows a vertex, may be further
/// from zero than `COORD_MAX`, 8192 in fixed point: beyond it a normal or the
/// test of a pixel leaves the range of `i64`.
pub fn with_light(
    image: &mut RgbaCanvas,
    vertices: &VecDeque<Vec3f>,
    faces: &VecDeque<Face>,
    light_dir: Vec3f,
) -> (result: Result<(), MeshError>)
    requires
        (Scene {
            vertices: vertices@,
            faces: faces@,
            light: light_dir@,
            width: old(image)@.width as int,
            height: old(image)@.height as int,
        }).bounded(),
    ensures
        validated(faces@, vertices@.len() as int, result),
        result is Err ==> final(image)@ == old(image)@,
        result is Ok ==> final(image)@ == (Scene {
            vertices: vertices@,
            faces: faces@,
            light: light_dir@,
            width: old(image)@.width as int,
            height: old(image)@.height as int,
        }).plain(old(image)@, faces@.len()),
{
    let outcome = validate_faces(faces, vertices.len());
    if outcome.is_err() {
        return outcome;
    }
    let width = image.width();
    let height = image.height();
    let ghost start = image@;
    let ghost scene = Scene {
        vertices: vertices@,
        faces: faces@,
        light: light_dir@,
        width: width as int,
        height: height as int,
    };
    let mut f: usize = 0;
    while f < faces.len()
        invariant
            0 <= f <= faces@.len(),
            scene == (Scene {
                vertices: vertices@,
                faces: faces@,
                light: light_dir@,
                width: width as int,
                height: height as int,
            }),
            scene.validated(),
            scene.bounded(),
            image@.width == width,
            image@.height == height,
            image@ == scene.plain(start, f as nat),
        decreases faces@.len() - f,
    {
        let face = &faces[f];
        let (a, b, c) = corners(vertices, face);
        assert(a@ == scene.world(f as int, 0));
        assert(b@ == scene.world(f as int, 1));
        assert(c@ == scene.world(f as int, 2));
        match face_shade(&a, &b, &c, light_dir) {
            Some(level) => {
                let s0 = project(&a, width, height, 0);
                let s1 = project(&b, width, height, 0);
                let s2 = project(&c, width, height, 0);
                triangle_with_gamma(&s0, &s1, &s2, image, Rgba([level, level, level, 255]));
            },
            None => {},
        }
        f = f + 1;
    }
    Ok(())
}

/// Draws every face that the light shines on as a grey triangle, the brighter
/// the more directly it is lit, and shows at each pixel the nearest of them: the
/// one of the greatest depth there. The depth of a corner is its third coordinate
/// in world space. Where two faces are equally near, the earlier in the list
/// shows. The depths, eight bytes for each pixel, must not outgrow `isize`. No
/// component of a vertex or of the light, and no coordinate of the place where
/// the canvas shows a vertex, may be further from zero than `COORD_MAX`, 8192 in
/// fixed point: beyond it a normal, the test of a pixel or its depth leaves the
/// range of `i64`. A face that names a vertex which is not in the list stops
/// the drawing before it begins.
pub fn with_light_smart(
    image: &mut RgbaCanvas,
    vertices: &VecDeque<Vec3f>,
    faces: &VecDeque<Face>,
    light_dir: Vec3f,
) -> (result: Result<(), MeshError>)
    requires
        (Scene {
            vertices: vertices@,
            faces: faces@,
            light: light_dir@,
            width: old(image)@.width as int,
            height: old(image)@.height as int,
        }).bounded(),
        8 * old(image)@.width * old(image)@.height <= isize::MAX,
    ensures
        validated(faces@, vertices@.len() as int, result),
        result is Err ==> final(image)@ == old(image)@,
        result is Ok ==> final(image)@ == (Scene {
            vertices: vertices@,
            faces: faces@,
            light: light_dir@,
            width: old(image)@.width as int,
            height: old(image)@.height as int,
        }).composed(
            Frame {
                picture: old(image)@,
                depths: blank(old(image)@.width as int, old(image)@.height as int),
            },
            faces@.len(),
        ).picture,
{
    let outcome = validate_faces(faces, vertices.len());
    if outcome.is_err() {
        return outcome;
    }
    let width = image.width();
    let height = image.height();
    let ghost start = Frame { picture: image@, depths: blank(width as int, height as int) };
    let ghost scene = Scene {
        vertices: vertices@,
        faces: faces@,
        light: light_dir@,
        width: width as int,
        height: height as int,
    };
    assert((width as usize) * (height as usize) == width * height && width * height <= 8 * width
        * height) by (nonlinear_arith)
        requires
            (width as usize) == width,
            (height as usize) == height,
            0 <= width,
            0 <= height,
    ;
    let mut z_buffer: Vec<i64> = vec![NOTHING; (width as usize) * (height as usize)];
    assert(z_buffer@ =~= start.depths);
    let mut f: usize = 0;
    while f < faces.len()
        invariant
            0 <= f <= faces@.len(),
            scene == (Scene {
                vertices: vertices@,
                faces: faces@,
                light: light_dir@,
                width: width as int,
                height: height as int,
            }),
            scene.validated(),
            scene.bounded(),
            image@.width == width,
            image@.height == height,
            z_buffer@.len() == width * height,
            image@ == scene.composed(start, f as nat).picture,
            z_buffer@ == scene.composed(start, f as nat).depths,
        decreases faces@.len() - f,
    {
        let face = &faces[f];
        let (a, b, c) = corners(vertices, face);
        assert(a@ == scene.world(f as int, 0));
        assert(b@ == scene.world(f as int, 1));
        assert(c@ == scene.world(f as int, 2));
        match face_shade(&a, &b, &c, light_dir) {
            Some(level) => {
                let s0 = project(&a, width, height, a.z());
                let s1 = project(&b, width, height, b.z());
                let s2 = project(&c, width, height, c.z());
                triangle_with_gamma_smart(
                    &s0,
                    &s1,
                    &s2,
                    &mut z_buffer,
                    image,
                    Rgba([level, level, level, 255]),
                );
            },
            None => {},
        }
        f = f + 1;
    }
    Ok(())
}

/// On a canvas on which nothing was drawn yet a triangle shows wherever it covers
/// a pixel.
pub proof fn lemma_blank_shows_all(patch: Patch)
    requires
        patch.wf(),
    ensures
        patch.shown(blank(patch.width, patch.height)) == covered(
            patch.a,
            patch.b,
            patch.c,
            patch.width,
            patch.height,
        ),
{
    let depths = blank(patch.width, patch.height);
    let all = covered(patch.a, patch.b, patch.c, patch.width, patch.height);
    assert forall|p: (int, int)| all.contains(p) implies patch.shown(depths).contains(p) by {
        patch.lemma_covered(p.0, p.1);
        lemma_slot_bounded(p.0, p.1, patch.width, patch.height);
    }
    assert(patch.shown(depths) =~= all);
}

impl Scene {
    /// The scene with its first two faces in the other order.
    pub open spec fn swapped(self) -> Scene
        recommends
            self.faces.len() == 2,
    {
        Scene { faces: seq![self.faces[1], self.faces[0]], ..self }
    }

    /// The triangle that is drawn for a face is within the limit of the
    /// coordinates.
    pub proof fn lemma_patch_wf(self, f: int)
        requires
            self.validated(),
            self.bounded(),
            0 <= self.width,
            0 <= self.height,
            0 <= f < self.faces.len(),
        ensures
            self.patch(f).wf(),
    {
        assert(face_in_range(self.faces[f], self.vertices.len() as int));
        assert(drawable(self.vertices[self.faces[f].vertex_index(0)]@, self.width, self.height));
        assert(drawable(self.vertices[self.faces[f].vertex_index(1)]@, self.width, self.height));
        assert(drawable(self.vertices[self.faces[f].vertex_index(2)]@, self.width, self.height));
    }
}

impl Scene {
    /// The scene with the faces `k` and `k + 1` in the other order.
    pub open spec fn swapped_at(self, k: int) -> Scene
        recommends
            0 <= k,
            k + 1 < self.faces.len(),
    {
        Scene {
            faces: self.faces.update(k, self.faces[k + 1]).update(k + 1, self.faces[k]),
            ..self
        }
    }

    /// Drawing faces leaves the count of depths as it was.
    pub proof fn lemma_composed_size(self, frame: Frame, n: nat)
        ensures
            self.composed(frame, n).depths.len() == frame.depths.len(),
        decreases n,
    {
        if n > 0 {
            self.lemma_composed_size(frame, (n - 1) as nat);
        }
    }
}

/// Drawing with depths does not depend on the order of the faces: two faces next
/// to each other in the list may change places, and the picture and the depths
/// after both are drawn, or after any later face is, stay the same, provided that
/// the two differ in depth wherever both cover a pixel.
pub proof fn lemma_neighbours_any_order(scene: Scene, k: int, frame: Frame, n: nat)
    requires
        scene.validated(),
        scene.bounded(),
        0 <= scene.width,
        0 <= scene.height,
        frame.depths.len() == scene.width * scene.height,
        0 <= k,
        k + 1 < scene.faces.len(),
        scene.patch(k).apart_from(scene.patch(k + 1)),
        n <= scene.faces.len(),
        n != k + 1,
    ensures
        scene.composed(frame, n) == scene.swapped_at(k).composed(frame, n),
    decreases n,
{
    let other = scene.swapped_at(k);
    if n == 0 {
    } else if n == k + 2 {
        lemma_neighbours_any_order(scene, k, frame, k as nat);
        let base = scene.composed(frame, k as nat);
        scene.lemma_composed_size(frame, k as nat);
        let p = scene.patch(k);
        let q = scene.patch(k + 1);
        scene.lemma_patch_wf(k);
        scene.lemma_patch_wf(k + 1);
        assert(other.faces[k] == scene.faces[k + 1]);
        assert(other.faces[k + 1] == scene.faces[k]);
        assert(other.patch(k) == q);
        assert(other.patch(k + 1) == p);
        assert(other.is_lit(k) == scene.is_lit(k + 1));
        assert(other.is_lit(k + 1) == scene.is_lit(k));
        let first = scene.composed(frame, (k + 1) as nat);
        let second = other.composed(frame, (k + 1) as nat);
        assert(first == if scene.is_lit(k) {
            Frame { picture: p.paint(base.picture, base.depths), depths: p.raise(base.depths) }
        } else {
            base
        });
        assert(second == if scene.is_lit(k + 1) {
            Frame { picture: q.paint(base.picture, base.depths), depths: q.raise(base.depths) }
        } else {
            base
        });
        assert(scene.composed(frame, n) == if scene.is_lit(k + 1) {
            Frame { picture: q.paint(first.picture, first.depths), depths: q.raise(first.depths) }
        } else {
            first
        });
        assert(other.composed(frame, n) == if scene.is_lit(k) {
            Frame { picture: p.paint(second.picture, second.depths), depths: p.raise(second.depths) }
        } else {
            second
        });
        if scene.is_lit(k) && scene.is_lit(k + 1) {
            lemma_depths_any_order(p, q, base.depths);
            lemma_picture_any_order(p, q, base.picture, base.depths);
        }
    } else {
        lemma_neighbours_any_order(scene, k, frame, (n - 1) as nat);
        assert(other.faces[n - 1] == scene.faces[n - 1]);
        assert(other.patch(n - 1) == scene.patch(n - 1));
        assert(other.is_lit(n - 1) == scene.is_lit(n - 1));
    }
}

/// A mesh of two faces gives the same picture and the same depths with the faces
/// in either order, provided that the two differ in depth wherever both cover a
/// pixel.
pub proof fn lemma_two_faces_any_order(scene: Scene, frame: Frame)
    requires
        scene.faces.len() == 2,
        scene.validated(),
        scene.bounded(),
        0 <= scene.width,
        0 <= scene.height,
        frame.depths.len() == scene.width * scene.height,
        scene.patch(0).apart_from(scene.patch(1)),
    ensures
        scene.composed(frame, 2) == scene.swapped().composed(frame, 2),
{
    lemma_neighbours_any_order(scene, 0, frame, 2);
    assert(scene.swapped().faces =~= scene.swapped_at(0).faces);
}

/// The picture after the first `n` faces are drawn one over the other, face `f`
/// in the colour `colors[f]`.
pub open spec fn flat_shaded(
    picture: Picture<Rgb>,
    vertices: Seq<Vec3f>,
    faces: Seq<Face>,
    colors: Seq<Rgb>,
    n: nat,
) -> Picture<Rgb>
    decreases n,
{
    if n == 0 {
        picture
    } else {
        let f = n - 1;
        let before = flat_shaded(picture, vertices, faces, colors, f as nat);
        let w = picture.width as int;
        let h = picture.height as int;
        before.fill(
            covered(
                to_screen(corner(vertices, faces[f], 0), w, h),
                to_screen(corner(vertices, faces[f], 1), w, h),
                to_screen(corner(vertices, faces[f], 2), w, h),
                w,
                h,
            ),
            colors[f],
        )
    }
}

/// The largest channel value of a face's random colour, and one more.
pub const CHANNEL_END: u8 = 254;

/// Whether each channel of each colour is below [`CHANNEL_END`].
pub open spec fn muted(colors: Seq<Rgb>) -> bool {
    forall|i: int, k: int|
        0 <= i < colors.len() && 0 <= k < 3 ==> #[trigger] colors[i].0[k] < CHANNEL_END
}

/// Draws every face as a triangle of one colour: face `f` in `colors[f]`. Faces
/// are drawn in the order of the list, a later one over an earlier one. A face
/// that names a vertex which is not in the list stops the drawing before it begins.
/// The place where the canvas shows a vertex may lie off the canvas, but along
/// both axes no further from the origin than `COORD_MAX`, 8192 in fixed point:
/// beyond it the test of a pixel leaves the range of `i64`. The depth of a vertex
/// is not read.
pub fn flat_shade_with(
    image: &mut RgbCanvas,
    vertices: &VecDeque<Vec3f>,
    faces: &VecDeque<Face>,
    colors: &Vec<Rgb>,
) -> (result: Result<(), MeshError>)
    requires
        colors@.len() == faces@.len(),
        forall|i: int|
            0 <= i < vertices@.len() ==> placeable(
                #[trigger] vertices@[i]@,
                old(image)@.width as int,
                old(image)@.height as int,
            ),
    ensures
        validated(faces@, vertices@.len() as int, result),
        result is Err ==> final(image)@ == old(image)@,
        result is Ok ==> final(image)@ == flat_shaded(
            old(image)@,
            vertices@,
            faces@,
            colors@,
            faces@.len(),
        ),
{
    let outcome = validate_faces(faces, vertices.len());
    if outcome.is_err() {
        return outcome;
    }
    let width = image.width();
    let height = image.height();
    let ghost start = image@;
    let mut f: usize = 0;
    while f < faces.len()
        invariant
            0 <= f <= faces@.len(),
            colors@.len() == faces@.len(),
            faces_in_range(faces@, vertices@.len() as int),
            forall|i: int|
                0 <= i < vertices@.len() ==> placeable(
                    #[trigger] vertices@[i]@,
                    width as int,
                    height as int,
                ),
            start.width == width,
            start.height == height,
            image@.width == width,
            image@.height == height,
            image@ == flat_shaded(start, vertices@, faces@, colors@, f as nat),
        decreases faces@.len() - f,
    {
        let face = &faces[f];
        let (a, b, c) = corners(vertices, face);
        let s0 = project(&a, width, height, 0);
        let s1 = project(&b, width, height, 0);
        let s2 = project(&c, width, height, 0);
        triangle(&s0, &s1, &s2, image, colors[f]);
        f = f + 1;
    }
    Ok(())
}

/// Draws every face as a triangle of one colour, chosen at random for each face
/// with every channel below [`CHANNEL_END`]. A face that names a vertex which is
/// not in the list stops the drawing before it begins. The place where the canvas
/// shows a vertex may lie off the canvas, but along both axes no further from the
/// origin than `COORD_MAX`, 8192 in fixed point: beyond it the test of a pixel
/// leaves the range of `i64`. The depth of a vertex is not read.
pub fn flat_shade(image: &mut RgbCanvas, vertices: &VecDeque<Vec3f>, faces: &VecDeque<Face>) -> (result:
    Result<(), MeshError>)
    requires
        forall|i: int|
            0 <= i < vertices@.len() ==> placeable(
                #[trigger] vertices@[i]@,
                old(image)@.width as int,
                old(image)@.height as int,
            ),
    ensures
        validated(faces@, vertices@.len() as int, result),
        result is Err ==> final(image)@ == old(image)@,
        result is Ok ==> exists|colors: Seq<Rgb>|
            colors.len() == faces@.len() && muted(colors) && final(image)@ == #[trigger] flat_shaded(
                old(image)@,
                vertices@,
                faces@,
                colors,
                faces@.len(),
            ),
{
    let mut rng = thread_rng();
    let mut colors: Vec<Rgb> = Vec::new();
    let mut f: usize = 0;
    while f < faces.len()
        invariant
            0 <= f <= faces@.len(),
            colors@.len() == f,
            muted(colors@),
        decreases faces@.len() - f,
    {
        let red = gen_range(&mut rng, 0, CHANNEL_END);
        let green = gen_range(&mut rng, 0, CHANNEL_END);
        let blue = gen_range(&mut rng, 0, CHANNEL_END);
        colors.push(Rgb([red, green, blue]));
        f = f + 1;
    }
    flat_shade_with(image, vertices, faces, &colors)
}

} // verus!
