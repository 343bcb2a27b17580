//! Filled triangles.
//!
//! A triangle is filled by testing membership: every pixel of its bounding box,
//! cut down to the canvas, is painted if its barycentric coordinates are all
//! non-negative. A pixel on an edge has a coordinate of zero and is painted, so two
//! triangles that share an edge both paint the pixels on it, and the one drawn last
//! shows.

use super::canvas::{Canvas, Picture, Rgb, RgbCanvas, Rgba, RgbaCanvas};
use crate::geometry::fixed::{lemma_product_bounded, multiply_wide, product, ONE};
use crate::geometry::exact::{
    hair, lemma_inside_is_nearly_within, lemma_on_grid_is_exact, lemma_well_within_is_inside,
    lemma_within_is_between, on_grid, within_by,
};
use crate::geometry::ops::{
    barycentric, degenerate, inside, legs, lemma_barycentric_of_corners, weights, COORD_MAX,
};
use crate::geometry::types::{Vec3f, Vector3};
use vstd::arithmetic::div_mod::{
    lemma_fundamental_div_mod, lemma_fundamental_div_mod_converse, lemma_mod_bound,
};
use vstd::prelude::*;

verus! {

/// The column or row that holds the coordinate `c`: its whole part, or the first
/// one if `c` is negative.
pub open spec fn cell(c: int) -> int {
    if c < 0 {
        0
    } else {
        c / (ONE as int)
    }
}

/// The smallest of three numbers.
pub open spec fn min3(a: int, b: int, c: int) -> int {
    if a <= b && a <= c {
        a
    } else if b <= c {
        b
    } else {
        c
    }
}

/// The largest of three numbers.
pub open spec fn max3(a: int, b: int, c: int) -> int {
    if a >= b && a >= c {
        a
    } else if b >= c {
        b
    } else {
        c
    }
}

/// The columns and rows between which a triangle is scanned on a canvas that has
/// at least one pixel.
pub struct Bounds {
    pub x_min: int,
    pub x_max: int,
    pub y_min: int,
    pub y_max: int,
}

impl Bounds {
    /// Whether the pixel `(x, y)` is scanned.
    pub open spec fn contains(self, x: int, y: int) -> bool {
        self.x_min <= x <= self.x_max && self.y_min <= y <= self.y_max
    }
}

/// The bounding box of the triangle `a`, `b`, `c`, cut down to a canvas of the
/// given size.
pub open spec fn bounding_box(a: Vector3, b: Vector3, c: Vector3, width: int, height: int) -> Bounds
    recommends
        width >= 1,
        height >= 1,
{
    let right = cell(max3(a.x, b.x, c.x));
    let top = cell(max3(a.y, b.y, c.y));
    Bounds {
        x_min: cell(min3(a.x, b.x, c.x)),
        x_max: if right < width - 1 {
            right
        } else {
            width - 1
        },
        y_min: cell(min3(a.y, b.y, c.y)),
        y_max: if top < height - 1 {
            top
        } else {
            height - 1
        },
    }
}

/// The point at which the pixel `(x, y)` is tested.
pub open spec fn center(x: int, y: int) -> Vector3 {
    Vector3 { x: x * ONE, y: y * ONE, z: 0 }
}

/// The pixels that the triangle `a`, `b`, `c` covers on a canvas of the given
/// size: those of its bounding box whose barycentric coordinates are all
/// non-negative.
pub open spec fn covered(a: Vector3, b: Vector3, c: Vector3, width: int, height: int) -> Set<
    (int, int),
> {
    Set::new(
        |p: (int, int)|
            width >= 1 && height >= 1 && bounding_box(a, b, c, width, height).contains(p.0, p.1)
                && inside(weights(a, b, c, center(p.0, p.1))),
    )
}

/// No pixel outside a triangle is painted, but for a hair: a pixel that the
/// triangle covers is a pixel of the canvas whose centre lies inside the triangle
/// or outside it by no more than a hair.
pub proof fn lemma_covered_is_nearly_within(
    a: Vector3,
    b: Vector3,
    c: Vector3,
    width: int,
    height: int,
    x: int,
    y: int,
)
    requires
        covered(a, b, c, width, height).contains((x, y)),
    ensures
        0 <= x < width,
        0 <= y < height,
        within_by(a, b, c, center(x, y), -hair(a, b, c)),
{
    lemma_inside_is_nearly_within(a, b, c, center(x, y));
}

/// Every pixel well inside a triangle is painted: a pixel of the canvas whose
/// centre lies well inside a triangle that is not degenerate is covered.
pub proof fn lemma_well_within_is_covered(
    a: Vector3,
    b: Vector3,
    c: Vector3,
    width: int,
    height: int,
    x: int,
    y: int,
)
    requires
        0 <= x < width,
        0 <= y < height,
        !degenerate(a, b, c),
        within_by(a, b, c, center(x, y), 6 * ONE),
    ensures
        covered(a, b, c, width, height).contains((x, y)),
{
    lemma_well_within_is_inside(a, b, c, center(x, y));
    lemma_within_is_between(a, b, c, center(x, y));
    assert(x * ONE >= 0 && y * ONE >= 0) by (nonlinear_arith)
        requires
            x >= 0,
            y >= 0,
            ONE > 0,
    ;
}

/// The corners of a triangle are painted: the pixel of the canvas whose centre is
/// a corner of a triangle that is not degenerate is covered.
pub proof fn lemma_corner_is_covered(
    a: Vector3,
    b: Vector3,
    c: Vector3,
    width: int,
    height: int,
    x: int,
    y: int,
)
    requires
        !degenerate(a, b, c),
        0 <= x < width,
        0 <= y < height,
        (a.x == x * ONE && a.y == y * ONE) || (b.x == x * ONE && b.y == y * ONE) || (c.x == x * ONE
            && c.y == y * ONE),
    ensures
        covered(a, b, c, width, height).contains((x, y)),
{
    lemma_barycentric_of_corners(a, b, c);
    let p = center(x, y);
    assert(legs(a, b, c, p) == legs(a, b, c, a) || legs(a, b, c, p) == legs(a, b, c, b) || legs(
        a,
        b,
        c,
        p,
    ) == legs(a, b, c, c));
    assert(x * ONE >= 0 && y * ONE >= 0) by (nonlinear_arith)
        requires
            x >= 0,
            y >= 0,
            ONE > 0,
    ;
    assert((x * ONE) / (ONE as int) == x && (y * ONE) / (ONE as int) == y) by (nonlinear_arith)
        requires
            ONE == 0x1_0000_0000,
    ;
}

/// For a triangle whose corners are centres of pixels the fill is exact: a pixel
/// is covered if and only if it is a pixel of the canvas, the triangle has an
/// area, and the centre of the pixel lies inside the triangle or on its boundary.
pub proof fn lemma_covered_on_grid(
    a: Vector3,
    b: Vector3,
    c: Vector3,
    width: int,
    height: int,
    x: int,
    y: int,
)
    requires
        a.flat_within(COORD_MAX as int),
        b.flat_within(COORD_MAX as int),
        c.flat_within(COORD_MAX as int),
        on_grid(a),
        on_grid(b),
        on_grid(c),
    ensures
        covered(a, b, c, width, height).contains((x, y)) <==> 0 <= x < width && 0 <= y < height
            && within_by(a, b, c, center(x, y), -1),
{
    let p = center(x, y);
    assert((x * ONE) % (ONE as int) == 0 && (y * ONE) % (ONE as int) == 0 && (x * ONE) / (
    ONE as int) == x && (y * ONE) / (ONE as int) == y) by (nonlinear_arith)
        requires
            ONE == 0x1_0000_0000,
    ;
    assert(x >= 0 ==> x * ONE >= 0) by (nonlinear_arith)
        requires
            ONE > 0,
    ;
    assert(y >= 0 ==> y * ONE >= 0) by (nonlinear_arith)
        requires
            ONE > 0,
    ;
    if covered(a, b, c, width, height).contains((x, y)) {
        assert(x * ONE <= COORD_MAX && y * ONE <= COORD_MAX) by (nonlinear_arith)
            requires
                0 <= x <= 0x2000,
                0 <= y <= 0x2000,
                ONE == 0x1_0000_0000,
                COORD_MAX == 0x2000_0000_0000,
        ;
        lemma_on_grid_is_exact(a, b, c, p);
    }
    if 0 <= x < width && 0 <= y < height && within_by(a, b, c, p, -1) {
        lemma_within_is_between(a, b, c, p);
        lemma_on_grid_is_exact(a, b, c, p);
    }
}

/// Whether the pixel `p` is scanned before the pixel `(x, y)`: columns are scanned
/// from the left, and each column from row zero upward.
pub open spec fn earlier(p: (int, int), x: int, y: int) -> bool {
    p.0 < x || (p.0 == x && p.1 < y)
}

/// The column or row that holds the coordinate `c`.
fn to_cell(c: i64) -> (n: usize)
    ensures
        n == cell(c as int),
{
    if c < 0 {
        0
    } else {
        (c / ONE) as usize
    }
}

/// The smaller of two numbers.
fn lower(a: i64, b: i64) -> (m: i64)
    ensures
        m == if a <= b { a } else { b },
{
    if a <= b {
        a
    } else {
        b
    }
}

/// The larger of two numbers.
fn upper(a: i64, b: i64) -> (m: i64)
    ensures
        m == if a >= b { a } else { b },
{
    if a >= b {
        a
    } else {
        b
    }
}

/// The bounding box of a triangle, cut down to a canvas of the given size, as
/// `(x_min, x_max, y_min, y_max)`.
fn find_bounding_box(v0: &Vec3f, v1: &Vec3f, v2: &Vec3f, width: usize, height: usize) -> (bounds: (
    usize,
    usize,
    usize,
    usize,
))
    requires
        width >= 1,
        height >= 1,
    ensures
        bounding_box(v0@, v1@, v2@, width as int, height as int) == (Bounds {
            x_min: bounds.0 as int,
            x_max: bounds.1 as int,
            y_min: bounds.2 as int,
            y_max: bounds.3 as int,
        }),
{
    let x_low = to_cell(lower(lower(v0.x(), v1.x()), v2.x()));
    let x_high = to_cell(upper(upper(v0.x(), v1.x()), v2.x()));
    let y_low = to_cell(lower(lower(v0.y(), v1.y()), v2.y()));
    let y_high = to_cell(upper(upper(v0.y(), v1.y()), v2.y()));
    let x_max = if x_high < width - 1 {
        x_high
    } else {
        width - 1
    };
    let y_max = if y_high < height - 1 {
        y_high
    } else {
        height - 1
    };
    (x_low, x_max, y_low, y_max)
}

/// Whether barycentric coordinates are all non-negative.
fn is_inside(w: &Vec3f) -> (yes: bool)
    ensures
        yes == inside(w@),
{
    w.x() >= 0 && w.y() >= 0 && w.z() >= 0
}

/// Paints every pixel that the triangle covers.
fn fill<C: Canvas>(v0: &Vec3f, v1: &Vec3f, v2: &Vec3f, image: &mut C, color: C::Color)
    requires
        v0@.flat_within(COORD_MAX as int),
        v1@.flat_within(COORD_MAX as int),
        v2@.flat_within(COORD_MAX as int),
    ensures
        final(image).picture() == old(image).picture().fill(
            covered(
                v0@,
                v1@,
                v2@,
                old(image).picture().width as int,
                old(image).picture().height as int,
            ),
            color,
        ),
{
    let width = image.width();
    let height = image.height();
    let ghost start = image.picture();
    let ghost all = covered(v0@, v1@, v2@, width as int, height as int);
    if width == 0 || height == 0 {
        assert(start.fill(all, color).pixels =~= start.pixels);
        return ;
    }
    let (x_min, x_max, y_min, y_max) = find_bounding_box(
        v0,
        v1,
        v2,
        width as usize,
        height as usize,
    );
    let ghost bounds = bounding_box(v0@, v1@, v2@, width as int, height as int);
    assert(start.fill(all.filter(|p: (int, int)| earlier(p, x_min as int, y_min as int)), color).pixels
        =~= start.pixels);
    let mut x = x_min;
    while x <= x_max
        invariant
            bounds == bounding_box(v0@, v1@, v2@, width as int, height as int),
            bounds == (Bounds {
                x_min: x_min as int,
                x_max: x_max as int,
                y_min: y_min as int,
                y_max: y_max as int,
            }),
            all == covered(v0@, v1@, v2@, width as int, height as int),
            width >= 1,
            height >= 1,
            v0@.flat_within(COORD_MAX as int),
            v1@.flat_within(COORD_MAX as int),
            v2@.flat_within(COORD_MAX as int),
            x_min <= x,
            x <= x_max + 1 || x_min > x_max,
            start.wf(),
            image.picture().width == width,
            image.picture().height == height,
            image.picture() == start.fill(
                all.filter(|p: (int, int)| earlier(p, x as int, y_min as int)),
                color,
            ),
        decreases x_max + 1 - x,
    {
        let mut y = y_min;
        while y <= y_max
            invariant
                bounds == bounding_box(v0@, v1@, v2@, width as int, height as int),
                bounds == (Bounds {
                    x_min: x_min as int,
                    x_max: x_max as int,
                    y_min: y_min as int,
                    y_max: y_max as int,
                }),
                all == covered(v0@, v1@, v2@, width as int, height as int),
                width >= 1,
                height >= 1,
                v0@.flat_within(COORD_MAX as int),
                v1@.flat_within(COORD_MAX as int),
                v2@.flat_within(COORD_MAX as int),
                x_min <= x <= x_max,
                y_min <= y,
                y <= y_max + 1 || y_min > y_max,
                start.wf(),
                image.picture().width == width,
                image.picture().height == height,
                image.picture() == start.fill(
                    all.filter(|p: (int, int)| earlier(p, x as int, y as int)),
                    color,
                ),
            decreases y_max + 1 - y,
        {
            let point = Vec3f([(x as i64) * ONE, (y as i64) * ONE, 0]);
            assert(point@ == center(x as int, y as int));
            let bc_coordinate = barycentric(vec![v0, v1, v2], &point);
            if is_inside(&bc_coordinate) {
                image.put_pixel(x as u32, y as u32, color);
                assert(all.contains((x as int, y as int)));
            }
            proof {
                let before = all.filter(|p: (int, int)| earlier(p, x as int, y as int));
                let after = all.filter(|p: (int, int)| earlier(p, x as int, y + 1));
                if inside(bc_coordinate@) {
                    assert(after =~= before.insert((x as int, y as int)));
                } else {
                    assert(after =~= before);
                }
                assert(image.picture().pixels =~= start.fill(after, color).pixels);
            }
            y = y + 1;
        }
        proof {
            let before = all.filter(|p: (int, int)| earlier(p, x as int, y as int));
            let after = all.filter(|p: (int, int)| earlier(p, x + 1, y_min as int));
            assert(after =~= before);
        }
        x = x + 1;
    }
    proof {
        let done = all.filter(|p: (int, int)| earlier(p, x as int, y_min as int));
        assert(done =~= all);
    }
}

/// Fills the triangle with the corners `v0`, `v1`, `v2` with `color`. The corners
/// may lie off the canvas, but along both axes no further from the origin than
/// [`COORD_MAX`], 8192 in fixed point: beyond it the test of a pixel leaves the
/// range of `i64`. The third component of a corner is not read.
pub fn triangle(v0: &Vec3f, v1: &Vec3f, v2: &Vec3f, image: &mut RgbCanvas, color: Rgb)
    requires
        v0@.flat_within(COORD_MAX as int),
        v1@.flat_within(COORD_MAX as int),
        v2@.flat_within(COORD_MAX as int),
    ensures
        final(image)@ == old(image)@.fill(
            covered(v0@, v1@, v2@, old(image)@.width as int, old(image)@.height as int),
            color,
        ),
{
    fill(v0, v1, v2, image, color)
}

/// Fills the triangle with the corners `v0`, `v1`, `v2` with `color`, on a
/// canvas whose pixels have an opacity. The corners may lie off the canvas, but
/// along both axes no further from the origin than [`COORD_MAX`], 8192 in fixed
/// point: beyond it the test of a pixel leaves the range of `i64`. The third
/// component of a corner is not read.
pub fn triangle_with_gamma(v0: &Vec3f, v1: &Vec3f, v2: &Vec3f, image: &mut RgbaCanvas, color: Rgba)
    requires
        v0@.flat_within(COORD_MAX as int),
        v1@.flat_within(COORD_MAX as int),
        v2@.flat_within(COORD_MAX as int),
    ensures
        final(image)@ == old(image)@.fill(
            covered(v0@, v1@, v2@, old(image)@.width as int, old(image)@.height as int),
            color,
        ),
{
    fill(v0, v1, v2, image, color)
}

/// The depth of the triangle `a`, `b`, `c` at the point with the barycentric
/// coordinates `w`: the third components of the corners, weighted by `w`.
pub open spec fn depth(a: Vector3, b: Vector3, c: Vector3, w: Vector3) -> int {
    product(a.z, w.x) + product(b.z, w.y) + product(c.z, w.z)
}

/// The depth of the triangle `a`, `b`, `c` at the pixel `(x, y)`.
pub open spec fn depth_at(a: Vector3, b: Vector3, c: Vector3, x: int, y: int) -> int {
    depth(a, b, c, weights(a, b, c, center(x, y)))
}

/// The position in a depth buffer of the pixel `(x, y)` of a canvas that is
/// `width` wide: the buffer holds the rows one after the other.
pub open spec fn slot(x: int, y: int, width: int) -> int {
    x + y * width
}

/// A triangle with its colour, seen on a canvas of a given size.
pub struct Patch {
    pub a: Vector3,
    pub b: Vector3,
    pub c: Vector3,
    pub color: Rgba,
    pub width: int,
    pub height: int,
}

impl Patch {
    /// Whether the triangle covers the pixel `(x, y)` and is nearer there than
    /// what `depths` holds for it.
    pub open spec fn shows(self, depths: Seq<i64>, x: int, y: int) -> bool {
        &&& covered(self.a, self.b, self.c, self.width, self.height).contains((x, y))
        &&& depths[slot(x, y, self.width)] < depth_at(self.a, self.b, self.c, x, y)
    }

    /// The pixels at which the triangle shows.
    pub open spec fn shown(self, depths: Seq<i64>) -> Set<(int, int)> {
        Set::new(|p: (int, int)| self.shows(depths, p.0, p.1))
    }

    /// The depth buffer after the triangle is drawn: where it shows, its depth.
    pub open spec fn raise(self, depths: Seq<i64>) -> Seq<i64> {
        Seq::new(
            depths.len(),
            |i: int|
                if self.shows(depths, i % self.width, i / self.width) {
                    depth_at(self.a, self.b, self.c, i % self.width, i / self.width) as i64
                } else {
                    depths[i]
                },
        )
    }

    /// The picture after the triangle is drawn: where it shows, its colour.
    pub open spec fn paint(self, picture: Picture<Rgba>, depths: Seq<i64>) -> Picture<Rgba> {
        picture.fill(self.shown(depths), self.color)
    }

    /// The depth buffer after the pixels scanned before `(x, y)` are drawn.
    pub open spec fn raise_before(self, depths: Seq<i64>, x: int, y: int) -> Seq<i64> {
        Seq::new(
            depths.len(),
            |i: int|
                if earlier((i % self.width, i / self.width), x, y) && self.shows(
                    depths,
                    i % self.width,
                    i / self.width,
                ) {
                    depth_at(self.a, self.b, self.c, i % self.width, i / self.width) as i64
                } else {
                    depths[i]
                },
        )
    }

    /// The pixels scanned before `(x, y)` at which the triangle shows.
    pub open spec fn shown_before(self, depths: Seq<i64>, x: int, y: int) -> Set<(int, int)> {
        self.shown(depths).filter(|p: (int, int)| earlier(p, x, y))
    }
}

/// A position in a depth buffer belongs to one pixel only.
pub proof fn lemma_slot(x: int, y: int, width: int)
    requires
        0 <= x < width,
        0 <= y,
    ensures
        slot(x, y, width) % width == x,
        slot(x, y, width) / width == y,
        0 <= slot(x, y, width),
{
    assert(y * width >= 0) by (nonlinear_arith)
        requires
            y >= 0,
            width > 0,
    ;
    lemma_fundamental_div_mod_converse(slot(x, y, width), width, y, x);
}

/// The pixel that a position in a depth buffer belongs to.
pub proof fn lemma_slot_of(i: int, width: int)
    requires
        0 <= i,
        0 < width,
    ensures
        slot(i % width, i / width, width) == i,
        0 <= i % width < width,
        0 <= i / width,
{
    lemma_fundamental_div_mod(i, width);
    lemma_mod_bound(i, width);
    assert(width * (i / width) == (i / width) * width) by (nonlinear_arith);
    assert(i / width >= 0) by (nonlinear_arith)
        requires
            i >= 0,
            width > 0,
    ;
}

/// The positions of the pixels of a canvas lie in its depth buffer.
pub proof fn lemma_slot_bounded(x: int, y: int, width: int, height: int)
    requires
        0 <= x < width,
        0 <= y < height,
    ensures
        0 <= slot(x, y, width) < width * height,
{
    assert(x + y * width < width * height) by (nonlinear_arith)
        requires
            0 <= x < width,
            0 <= y < height,
    ;
    assert(0 <= y * width) by (nonlinear_arith)
        requires
            0 <= y,
            0 < width,
    ;
}

/// Inside a triangle each barycentric coordinate is at most one, and the depth
/// is no larger in magnitude than three times the limit of the coordinates.
pub proof fn lemma_depth_bounded(a: Vector3, b: Vector3, c: Vector3, w: Vector3)
    requires
        a.within(COORD_MAX as int),
        b.within(COORD_MAX as int),
        c.within(COORD_MAX as int),
        w.within(ONE as int),
    ensures
        -3 * COORD_MAX <= depth(a, b, c, w) <= 3 * COORD_MAX,
{
    lemma_product_bounded(a.z, w.x, COORD_MAX as int, ONE as int);
    lemma_product_bounded(b.z, w.y, COORD_MAX as int, ONE as int);
    lemma_product_bounded(c.z, w.z, COORD_MAX as int, ONE as int);
    assert((COORD_MAX * ONE) / (ONE as int) == COORD_MAX) by (nonlinear_arith)
        requires
            ONE == 0x1_0000_0000,
    ;
}

/// Fills the triangle with the corners `v0`, `v1`, `v2` with `color` wherever it
/// is nearer than what was drawn before. The third component of a corner is its
/// depth, and the greater depth is the nearer. `z_buffer` holds, row after row,
/// the depth of what each pixel shows; it is raised where the triangle shows. No
/// component of a corner, the depth included, may be further from zero than
/// [`COORD_MAX`], 8192 in fixed point: beyond it the test of a pixel or its depth
/// leaves the range of `i64`.
pub fn triangle_with_gamma_smart(
    v0: &Vec3f,
    v1: &Vec3f,
    v2: &Vec3f,
    z_buffer: &mut Vec<i64>,
    image: &mut RgbaCanvas,
    color: Rgba,
)
    requires
        v0@.within(COORD_MAX as int),
        v1@.within(COORD_MAX as int),
        v2@.within(COORD_MAX as int),
        old(z_buffer).len() == old(image)@.width * old(image)@.height,
    ensures
        ({
            let patch = Patch {
                a: v0@,
                b: v1@,
                c: v2@,
                color,
                width: old(image)@.width as int,
                height: old(image)@.height as int,
            };
            &&& final(image)@ == patch.paint(old(image)@, old(z_buffer)@)
            &&& final(z_buffer)@ == patch.raise(old(z_buffer)@)
        }),
{
    let width = image.width();
    let height = image.height();
    let ghost start = image@;
    let ghost depths = z_buffer@;
    let ghost patch = Patch {
        a: v0@,
        b: v1@,
        c: v2@,
        color,
        width: width as int,
        height: height as int,
    };
    if width == 0 || height == 0 {
        assert(patch.paint(start, depths).pixels =~= start.pixels);
        assert(patch.raise(depths) =~= depths);
        return ;
    }
    let (x_min, x_max, y_min, y_max) = find_bounding_box(
        v0,
        v1,
        v2,
        width as usize,
        height as usize,
    );
    let ghost bounds = bounding_box(v0@, v1@, v2@, width as int, height as int);
    proof {
        assert(start.fill(patch.shown_before(depths, x_min as int, y_min as int), color).pixels
            =~= start.pixels);
        assert forall|i: int| 0 <= i < depths.len() implies #[trigger] patch.raise_before(
            depths,
            x_min as int,
            y_min as int,
        )[i] == depths[i] by {}
        assert(patch.raise_before(depths, x_min as int, y_min as int) =~= depths);
    }
    let mut x = x_min;
    while x <= x_max
        invariant
            bounds == bounding_box(v0@, v1@, v2@, width as int, height as int),
            bounds == (Bounds {
                x_min: x_min as int,
                x_max: x_max as int,
                y_min: y_min as int,
                y_max: y_max as int,
            }),
            patch == (Patch {
                a: v0@,
                b: v1@,
                c: v2@,
                color,
                width: width as int,
                height: height as int,
            }),
            width >= 1,
            height >= 1,
            v0@.within(COORD_MAX as int),
            v1@.within(COORD_MAX as int),
            v2@.within(COORD_MAX as int),
            x_min <= x,
            x <= x_max + 1 || x_min > x_max,
            start.wf(),
            image@.width == width,
            image@.height == height,
            depths.len() == width * height,
            z_buffer@ == patch.raise_before(depths, x as int, y_min as int),
            image@ == start.fill(patch.shown_before(depths, x as int, y_min as int), color),
        decreases x_max + 1 - x,
    {
        let mut y = y_min;
        while y <= y_max
            invariant
                bounds == bounding_box(v0@, v1@, v2@, width as int, height as int),
                bounds == (Bounds {
                    x_min: x_min as int,
                    x_max: x_max as int,
                    y_min: y_min as int,
                    y_max: y_max as int,
                }),
                patch == (Patch {
                    a: v0@,
                    b: v1@,
                    c: v2@,
                    color,
                    width: width as int,
                    height: height as int,
                }),
                width >= 1,
                height >= 1,
                v0@.within(COORD_MAX as int),
                v1@.within(COORD_MAX as int),
                v2@.within(COORD_MAX as int),
                x_min <= x <= x_max,
                y_min <= y,
                y <= y_max + 1 || y_min > y_max,
                start.wf(),
                image@.width == width,
                image@.height == height,
                depths.len() == width * height,
                z_buffer@ == patch.raise_before(depths, x as int, y as int),
                image@ == start.fill(patch.shown_before(depths, x as int, y as int), color),
            decreases y_max + 1 - y,
        {
            let point = Vec3f([(x as i64) * ONE, (y as i64) * ONE, 0]);
            assert(point@ == center(x as int, y as int));
            let bc_coordinate = barycentric(vec![v0, v1, v2], &point);
            let ghost here = slot(x as int, y as int, width as int);
            proof {
                lemma_slot(x as int, y as int, width as int);
                lemma_slot_bounded(x as int, y as int, width as int, height as int);
                assert(y * width <= here);
                assert(z_buffer@[here] == depths[here]);
            }
            let mut drawn = false;
            if is_inside(&bc_coordinate) {
                proof {
                    lemma_depth_bounded(v0@, v1@, v2@, bc_coordinate@);
                }
                let z: i128 = multiply_wide(v0.z(), bc_coordinate.x()) + multiply_wide(
                    v1.z(),
                    bc_coordinate.y(),
                ) + multiply_wide(v2.z(), bc_coordinate.z());
                let z = z as i64;
                proof {
                    assert(z_buffer@.len() == depths.len());
                    assert(here < depths.len());
                    assert(0 <= y * width) by (nonlinear_arith)
                        requires
                            0 <= y,
                            0 <= width,
                    ;
                    assert(y * width <= here);
                    assert(z_buffer.len() == z_buffer@.len());
                }
                let index = x + y * (width as usize);
                if z_buffer[index] < z {
                    z_buffer.set(index, z);
                    image.put_pixel(x as u32, y as u32, color);
                    drawn = true;
                }
            }
            proof {
                let before = patch.shown_before(depths, x as int, y as int);
                let after = patch.shown_before(depths, x as int, y + 1);
                let w = patch.width;
                assert(drawn == patch.shows(depths, x as int, y as int));
                if drawn {
                    assert(after =~= before.insert((x as int, y as int)));
                } else {
                    assert(after =~= before);
                }
                assert(image@.pixels =~= start.fill(after, color).pixels);
                assert forall|i: int| 0 <= i < depths.len() implies z_buffer@[i]
                    == patch.raise_before(depths, x as int, y + 1)[i] by {
                    lemma_slot_of(i, w);
                    if i == here {
                    } else {
                        assert((i % w, i / w) != (x as int, y as int));
                    }
                }
                assert(z_buffer@ =~= patch.raise_before(depths, x as int, y + 1));
            }
            y = y + 1;
        }
        proof {
            let before = patch.shown_before(depths, x as int, y as int);
            let after = patch.shown_before(depths, x + 1, y_min as int);
            assert(after =~= before);
            assert forall|i: int| 0 <= i < depths.len() implies patch.raise_before(
                depths,
                x as int,
                y as int,
            )[i] == patch.raise_before(depths, x + 1, y_min as int)[i] by {}
            assert(patch.raise_before(depths, x as int, y as int) =~= patch.raise_before(
                depths,
                x + 1,
                y_min as int,
            ));
        }
        x = x + 1;
    }
    proof {
        assert(patch.shown_before(depths, x as int, y_min as int) =~= patch.shown(depths));
        assert(patch.raise_before(depths, x as int, y_min as int) =~= patch.raise(depths));
    }
}

impl Patch {
    /// Whether the corners are within the limit of the coordinates and the size is
    /// that of a canvas.
    pub open spec fn wf(self) -> bool {
        &&& self.a.within(COORD_MAX as int)
        &&& self.b.within(COORD_MAX as int)
        &&& self.c.within(COORD_MAX as int)
        &&& 0 <= self.width
        &&& 0 <= self.height
    }

    /// Whether `other` is seen on the same canvas and, wherever both triangles
    /// cover a pixel, has another depth there.
    pub open spec fn apart_from(self, other: Patch) -> bool {
        &&& self.width == other.width
        &&& self.height == other.height
        &&& forall|x: int, y: int|
            #![trigger depth_at(self.a, self.b, self.c, x, y)]
            #![trigger depth_at(other.a, other.b, other.c, x, y)]
            covered(self.a, self.b, self.c, self.width, self.height).contains((x, y)) && covered(
                other.a,
                other.b,
                other.c,
                other.width,
                other.height,
            ).contains((x, y)) ==> depth_at(self.a, self.b, self.c, x, y) != depth_at(
                other.a,
                other.b,
                other.c,
                x,
                y,
            )
    }

    /// Where the triangle covers a pixel, the pixel is one of the canvas and the
    /// depth there can be held in the buffer.
    pub proof fn lemma_covered(self, x: int, y: int)
        requires
            self.wf(),
            covered(self.a, self.b, self.c, self.width, self.height).contains((x, y)),
        ensures
            0 <= x < self.width,
            0 <= y < self.height,
            -3 * COORD_MAX <= depth_at(self.a, self.b, self.c, x, y) <= 3 * COORD_MAX,
    {
        lemma_depth_bounded(self.a, self.b, self.c, weights(self.a, self.b, self.c, center(x, y)));
    }
}

/// The depth buffer after two triangles are drawn holds, for each pixel, the same
/// in either order, provided that the two differ in depth wherever both cover a
/// pixel.
pub proof fn lemma_depths_any_order(p: Patch, q: Patch, depths: Seq<i64>)
    requires
        p.wf(),
        q.wf(),
        p.apart_from(q),
        depths.len() == p.width * p.height,
    ensures
        q.raise(p.raise(depths)) == p.raise(q.raise(depths)),
{
    let w = p.width;
    let left = q.raise(p.raise(depths));
    let right = p.raise(q.raise(depths));
    assert forall|i: int| 0 <= i < depths.len() implies left[i] == right[i] by {
        if w > 0 {
            lemma_slot_of(i, w);
            let x = i % w;
            let y = i / w;
            if covered(p.a, p.b, p.c, w, p.height).contains((x, y)) {
                p.lemma_covered(x, y);
            }
            if covered(q.a, q.b, q.c, w, q.height).contains((x, y)) {
                q.lemma_covered(x, y);
            }
            assert(p.raise(depths)[i] == if p.shows(depths, x, y) {
                depth_at(p.a, p.b, p.c, x, y) as i64
            } else {
                depths[i]
            });
            assert(q.raise(depths)[i] == if q.shows(depths, x, y) {
                depth_at(q.a, q.b, q.c, x, y) as i64
            } else {
                depths[i]
            });
        } else {
            assert(p.width * p.height == 0) by (nonlinear_arith)
                requires
                    p.width == 0,
            ;
        }
    }
    assert(left =~= right);
}

/// What [`lemma_picture_any_order`] says, for one pixel.
proof fn lemma_pixel_any_order(
    p: Patch,
    q: Patch,
    picture: Picture<Rgba>,
    depths: Seq<i64>,
    x: int,
    y: int,
)
    requires
        p.wf(),
        q.wf(),
        p.apart_from(q),
        depths.len() == p.width * p.height,
    ensures
        ({
            let left = q.paint(p.paint(picture, depths), p.raise(depths));
            let right = p.paint(q.paint(picture, depths), q.raise(depths));
            &&& left.pixels.dom().contains((x, y)) == right.pixels.dom().contains((x, y))
            &&& left.pixels.dom().contains((x, y)) ==> left.pixels[(x, y)] == right.pixels[(x, y)]
        }),
{
    let w = p.width;
    let by_p = covered(p.a, p.b, p.c, w, p.height).contains((x, y));
    let by_q = covered(q.a, q.b, q.c, w, q.height).contains((x, y));
    if by_p {
        p.lemma_covered(x, y);
    }
    if by_q {
        q.lemma_covered(x, y);
    }
    if by_p || by_q {
        let i = slot(x, y, w);
        lemma_slot(x, y, w);
        lemma_slot_bounded(x, y, w, p.height);
        assert(p.raise(depths)[i] == if p.shows(depths, x, y) {
            depth_at(p.a, p.b, p.c, x, y) as i64
        } else {
            depths[i]
        });
        assert(q.raise(depths)[i] == if q.shows(depths, x, y) {
            depth_at(q.a, q.b, q.c, x, y) as i64
        } else {
            depths[i]
        });
    }
}

/// Depth compositing does not depend on the order: two triangles drawn on a
/// canvas one after the other leave the same picture in either order, provided
/// that the two differ in depth wherever both cover a pixel.
pub proof fn lemma_picture_any_order(p: Patch, q: Patch, picture: Picture<Rgba>, depths: Seq<i64>)
    requires
        p.wf(),
        q.wf(),
        p.apart_from(q),
        depths.len() == p.width * p.height,
    ensures
        q.paint(p.paint(picture, depths), p.raise(depths)) == p.paint(
            q.paint(picture, depths),
            q.raise(depths),
        ),
{
    let left = q.paint(p.paint(picture, depths), p.raise(depths));
    let right = p.paint(q.paint(picture, depths), q.raise(depths));
    assert forall|k: (int, int)|
        #[trigger] left.pixels.dom().contains(k) == right.pixels.dom().contains(k) by {
        lemma_pixel_any_order(p, q, picture, depths, k.0, k.1);
    }
    assert(left.pixels.dom() =~= right.pixels.dom());
    assert forall|k: (int, int)| #[trigger] left.pixels.dom().contains(k) implies left.pixels[k]
        == right.pixels[k] by {
        lemma_pixel_any_order(p, q, picture, depths, k.0, k.1);
    }
    assert(left.pixels =~= right.pixels);
}

} // verus!
