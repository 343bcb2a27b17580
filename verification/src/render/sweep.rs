//! Filled triangles, by horizontal sweep.
//!
//! The corners are put in order of height. For each row between the lowest and the
//! highest corner the long edge and one of the two short edges are followed to that
//! row, and the pixels between the two are painted, both ends included. A pixel
//! outside the canvas is left out. Where an edge crosses a row between two
//! columns, the column before the crossing is taken, so that a pixel may be
//! painted whose centre lies up to one column outside the triangle. Two triangles
//! that share an edge may both paint the pixels along it.

use super::canvas::{Canvas, Rgb, RgbCanvas};
use super::triangles::bounding_box;
use crate::geometry::exact::{
    lemma_product_error, lemma_product_on_grid, lemma_ratio_error, magnitude, on_grid, turn,
};
use crate::geometry::fixed::{
    divide, lemma_product_bounded, lemma_product_one, lemma_product_part, lemma_product_zero,
    lemma_quotient_bounds, lemma_ratio_basics, lemma_ratio_bounded, product, ratio, whole, ONE,
};
use crate::geometry::ops::COORD_MAX;
use crate::geometry::types::{Vec3f, Vector3};
use vstd::prelude::*;

verus! {

/// A triangle whose corners are in order of height: `low.y <= mid.y <= high.y`.
pub struct Sweep {
    pub low: Vector3,
    pub mid: Vector3,
    pub high: Vector3,
}

/// Whether the three corners are at one height, so that there is nothing to sweep.
pub open spec fn flat(a: Vector3, b: Vector3, c: Vector3) -> bool {
    a.y == b.y && a.y == c.y
}

/// The corners `a`, `b`, `c` in order of height, the lowest first.
pub open spec fn by_height(a: Vector3, b: Vector3, c: Vector3) -> Sweep {
    let (a1, b1) = if a.y > b.y {
        (b, a)
    } else {
        (a, b)
    };
    let (a2, c1) = if a1.y > c.y {
        (c, a1)
    } else {
        (a1, c)
    };
    let (b2, c2) = if b1.y > c1.y {
        (c1, b1)
    } else {
        (b1, c1)
    };
    Sweep { low: a2, mid: b2, high: c2 }
}

impl Sweep {
    /// Whether the corners are in order of height, not all at one height, and
    /// within the limit of the coordinates.
    pub open spec fn wf(self) -> bool {
        &&& self.low.y <= self.mid.y <= self.high.y
        &&& self.low.y < self.high.y
        &&& self.low.within(COORD_MAX as int)
        &&& self.mid.within(COORD_MAX as int)
        &&& self.high.within(COORD_MAX as int)
    }

    /// The number of the last row, the rows counted from the lowest corner.
    pub open spec fn last(self) -> int {
        whole(self.high.y - self.low.y)
    }

    /// Whether row `i` lies above the middle corner, so that the short edge to
    /// follow is the upper one.
    pub open spec fn upper(self, i: int) -> bool {
        i > whole(self.mid.y - self.low.y) || self.mid.y == self.low.y
    }

    /// The point of the long edge, from the lowest to the highest corner, at row `i`.
    pub open spec fn long_edge(self, i: int) -> Vector3 {
        let alpha = ratio(i * ONE, self.high.y - self.low.y);
        self.low.plus(self.high.minus(self.low).scaled(alpha))
    }

    /// The point of the short edge at row `i`.
    pub open spec fn short_edge(self, i: int) -> Vector3 {
        if self.upper(i) {
            let beta = ratio(i * ONE - (self.mid.y - self.low.y), self.high.y - self.mid.y);
            self.mid.plus(self.high.minus(self.mid).scaled(beta))
        } else {
            let beta = ratio(i * ONE, self.mid.y - self.low.y);
            self.low.plus(self.mid.minus(self.low).scaled(beta))
        }
    }

    /// The row of the canvas that row `i` of the sweep paints.
    pub open spec fn row(self, i: int) -> int {
        whole(i * ONE + self.low.y)
    }

    /// The first column that row `i` paints.
    pub open spec fn left(self, i: int) -> int {
        let a = self.long_edge(i).x;
        let b = self.short_edge(i).x;
        whole(if a > b { b } else { a })
    }

    /// The last column that row `i` paints.
    pub open spec fn right(self, i: int) -> int {
        let a = self.long_edge(i).x;
        let b = self.short_edge(i).x;
        whole(if a > b { a } else { b })
    }

    /// Whether row `i` paints the pixel `p` of a canvas of the given size.
    pub open spec fn paints(self, i: int, p: (int, int), width: int, height: int) -> bool {
        &&& 0 <= p.0 < width
        &&& 0 <= p.1 < height
        &&& p.1 == self.row(i)
        &&& self.left(i) <= p.0 <= self.right(i)
    }

    /// The pixels that the rows before row `n` paint, and row `n` up to the
    /// column `x`, that one left out.
    pub open spec fn painted_before(self, n: int, x: int, width: int, height: int) -> Set<
        (int, int),
    > {
        Set::new(
            |p: (int, int)|
                (exists|i: int| 0 <= i < n && #[trigger] self.paints(i, p, width, height)) || (
                self.paints(n, p, width, height) && p.0 < x),
        )
    }

    /// The pixels that the sweep paints on a canvas of the given size.
    pub open spec fn painted(self, width: int, height: int) -> Set<(int, int)> {
        Set::new(
            |p: (int, int)|
                exists|i: int| 0 <= i <= self.last() && #[trigger] self.paints(i, p, width, height),
        )
    }
}

/// The pixels that the sweep of the triangle `a`, `b`, `c` paints on a canvas of
/// the given size: none if the corners are at one height.
pub open spec fn swept(a: Vector3, b: Vector3, c: Vector3, width: int, height: int) -> Set<
    (int, int),
> {
    if flat(a, b, c) {
        Set::empty()
    } else {
        by_height(a, b, c).painted(width, height)
    }
}

/// The point that lies the part `t` of the way from `from` to `to`, where `t` is
/// between zero and one.
fn along(from: &Vec3f, to: &Vec3f, t: i64) -> (p: Vec3f)
    requires
        from@.within(COORD_MAX as int),
        to@.within(COORD_MAX as int),
        0 <= t <= ONE,
    ensures
        p@ == from@.plus(to@.minus(from@).scaled(t as int)),
{
    proof {
        let d = to@.minus(from@);
        lemma_product_bounded(d.x, t as int, 2 * COORD_MAX, ONE as int);
        lemma_product_bounded(d.y, t as int, 2 * COORD_MAX, ONE as int);
        lemma_product_bounded(d.z, t as int, 2 * COORD_MAX, ONE as int);
        assert((2 * COORD_MAX * ONE) / (ONE as int) == 2 * COORD_MAX) by (nonlinear_arith)
            requires
                ONE == 0x1_0000_0000,
        ;
    }
    *from + (*to - *from) * t
}

/// The part that `part` is of `all`, where `0 <= part <= all` and `all` is not zero.
fn fraction(part: i64, all: i64) -> (t: i64)
    requires
        0 <= part <= all,
        0 < all,
    ensures
        t == ratio(part as int, all as int),
        0 <= t <= ONE,
{
    proof {
        lemma_fraction_part(part as int, all as int);
    }
    divide(part, all)
}

/// Fills the triangle with the corners `v0`, `v1`, `v2` with `color`, row by
/// row. The corners are left in order of height, the lowest in `v0`, unless all
/// three are at one height: then nothing is painted and nothing is moved. The
/// corners may lie off the canvas, but no component of a corner may be further
/// from zero than [`COORD_MAX`], 8192 in fixed point: all three components are
/// followed along the edges, and beyond the limit that leaves the range of `i64`.
pub fn old_triangle(
    v0: &mut Vec3f,
    v1: &mut Vec3f,
    v2: &mut Vec3f,
    image: &mut RgbCanvas,
    color: Rgb,
)
    requires
        old(v0)@.within(COORD_MAX as int),
        old(v1)@.within(COORD_MAX as int),
        old(v2)@.within(COORD_MAX as int),
    ensures
        final(image)@ == old(image)@.fill(
            swept(
                old(v0)@,
                old(v1)@,
                old(v2)@,
                old(image)@.width as int,
                old(image)@.height as int,
            ),
            color,
        ),
        flat(old(v0)@, old(v1)@, old(v2)@) ==> *final(v0) == *old(v0) && *final(v1) == *old(v1)
            && *final(v2) == *old(v2),
        !flat(old(v0)@, old(v1)@, old(v2)@) ==> by_height(old(v0)@, old(v1)@, old(v2)@) == (Sweep {
            low: final(v0)@,
            mid: final(v1)@,
            high: final(v2)@,
        }),
{
    let ghost start = image@;
    if v0.y() == v1.y() && v0.y() == v2.y() {
        assert(start.fill(Set::empty(), color).pixels =~= start.pixels);
        return ;
    }
    if v0.y() > v1.y() {
        let t = *v0;
        *v0 = *v1;
        *v1 = t;
    }
    if v0.y() > v2.y() {
        let t = *v0;
        *v0 = *v2;
        *v2 = t;
    }
    if v1.y() > v2.y() {
        let t = *v1;
        *v1 = *v2;
        *v2 = t;
    }
    let ghost s = Sweep { low: v0@, mid: v1@, high: v2@ };
    assert(s == by_height(old(v0)@, old(v1)@, old(v2)@));
    assert(s.wf());
    let width = image.width() as i64;
    let height = image.height() as i64;
    let total_height = v2.y() - v0.y();
    let lower_height = v1.y() - v0.y();
    let last = total_height / ONE;
    let turn = lower_height / ONE;
    let mut i: i64 = 0;
    proof {
        assert(start.fill(s.painted_before(0, 0, width as int, height as int), color).pixels
            =~= start.pixels);
    }
    while i <= last
        invariant
            s == (Sweep { low: v0@, mid: v1@, high: v2@ }),
            s.wf(),
            start.wf(),
            width == start.width,
            height == start.height,
            image@.width == start.width,
            image@.height == start.height,
            width <= u32::MAX,
            height <= u32::MAX,
            total_height == s.high.y - s.low.y,
            lower_height == s.mid.y - s.low.y,
            last == s.last(),
            turn == whole(lower_height as int),
            0 <= i <= last + 1,
            image@ == start.fill(s.painted_before(i as int, 0, width as int, height as int), color),
        decreases last + 1 - i,
    {
        let second_half = i > turn || v1.y() == v0.y();
        let segment_height = if second_half {
            v2.y() - v1.y()
        } else {
            lower_height
        };
        let alpha = fraction(i * ONE, total_height);
        let beta = fraction(
            i * ONE - if second_half {
                lower_height
            } else {
                0
            },
            segment_height,
        );
        let mut a = along(v0, v2, alpha);
        let mut b = if second_half {
            along(v1, v2, beta)
        } else {
            along(v0, v1, beta)
        };
        assert(a@ == s.long_edge(i as int));
        assert(b@ == s.short_edge(i as int));
        if a.x() > b.x() {
            let t = a;
            a = b;
            b = t;
        }
        let row = (i * ONE + v0.y()) / ONE;
        let left = a.x() / ONE;
        let right = b.x() / ONE;
        assert(row == s.row(i as int));
        assert(left == s.left(i as int));
        assert(right == s.right(i as int));
        let first = if left < 0 {
            0
        } else {
            left
        };
        let end = if right < width - 1 {
            right
        } else {
            width - 1
        };
        let mut x = first;
        proof {
            assert(s.painted_before(i as int, 0, width as int, height as int) =~= s.painted_before(
                i as int,
                x as int,
                width as int,
                height as int,
            ));
        }
        if 0 <= row && row < height {
            while x <= end
                invariant
                    s == (Sweep { low: v0@, mid: v1@, high: v2@ }),
                    start.wf(),
                    width == start.width,
                    height == start.height,
                    image@.width == start.width,
                    image@.height == start.height,
                    0 <= row < height,
                    width <= u32::MAX,
                    height <= u32::MAX,
                    row == s.row(i as int),
                    left == s.left(i as int),
                    right == s.right(i as int),
                    first == if left < 0 { 0 } else { left },
                    end == if right < width - 1 { right as int } else { width - 1 },
                    first <= x,
                    x <= end + 1 || first > end,
                    image@ == start.fill(
                        s.painted_before(i as int, x as int, width as int, height as int),
                        color,
                    ),
                decreases end + 1 - x,
            {
                image.put_pixel(x as u32, row as u32, color);
                proof {
                    let before = s.painted_before(i as int, x as int, width as int, height as int);
                    let after = s.painted_before(i as int, x + 1, width as int, height as int);
                    assert(s.paints(i as int, (x as int, row as int), width as int, height as int));
                    assert(after =~= before.insert((x as int, row as int)));
                    assert(image@.pixels =~= start.fill(after, color).pixels);
                }
                x = x + 1;
            }
        }
        proof {
            let before = s.painted_before(i as int, x as int, width as int, height as int);
            let after = s.painted_before(i + 1, 0, width as int, height as int);
            assert forall|p: (int, int)| after.contains(p) implies before.contains(p) by {
                let j = choose|j: int| 0 <= j < i + 1 && #[trigger] s.paints(j, p, width as int, height as int);
                if j == i {
                    assert(p.0 < x);
                }
            }
            assert forall|p: (int, int)| before.contains(p) implies after.contains(p) by {
                if s.paints(i as int, p, width as int, height as int) && p.0 < x {
                    assert(0 <= i < i + 1);
                } else {
                    let j = choose|j: int| 0 <= j < i && #[trigger] s.paints(j, p, width as int, height as int);
                    assert(0 <= j < i + 1);
                }
            }
            assert(after =~= before);
        }
        i = i + 1;
    }
    proof {
        let done = s.painted_before(i as int, 0, width as int, height as int);
        let all = s.painted(width as int, height as int);
        assert forall|p: (int, int)| done.contains(p) implies all.contains(p) by {
            let j = choose|j: int| 0 <= j < i && #[trigger] s.paints(j, p, width as int, height as int);
            assert(0 <= j <= s.last());
        }
        assert forall|p: (int, int)| all.contains(p) implies done.contains(p) by {
            let j = choose|j: int| 0 <= j <= s.last() && #[trigger] s.paints(j, p, width as int, height as int);
            assert(0 <= j < i);
        }
        assert(done =~= all);
    }
}

/// A point of an edge lies, along each axis, between the two ends of the edge.
pub proof fn lemma_along_between(from: Vector3, to: Vector3, t: int)
    requires
        0 <= t <= ONE,
    ensures
        ({
            let p = from.plus(to.minus(from).scaled(t));
            &&& from.x <= to.x ==> from.x <= p.x <= to.x
            &&& from.x >= to.x ==> from.x >= p.x >= to.x
            &&& from.y <= to.y ==> from.y <= p.y <= to.y
            &&& from.y >= to.y ==> from.y >= p.y >= to.y
        }),
{
    lemma_product_part(to.x - from.x, t);
    lemma_product_part(to.y - from.y, t);
}

/// The part that a row is of the way up an edge is between nothing and the whole.
pub proof fn lemma_fraction_part(part: int, all: int)
    requires
        0 <= part <= all,
        0 < all,
    ensures
        0 <= ratio(part, all) <= ONE,
{
    lemma_ratio_bounded(part, all);
    lemma_quotient_bounds(part * ONE, all);
    assert(part * ONE >= 0) by (nonlinear_arith)
        requires
            part >= 0,
            ONE > 0,
    ;
}

impl Sweep {
    /// Both edges at a row of the sweep lie between the leftmost and the rightmost
    /// corner, and the row lies between the lowest and the highest corner.
    pub proof fn lemma_row_within(self, i: int)
        requires
            self.wf(),
            0 <= i <= self.last(),
        ensures
            ({
                let least = super::triangles::min3(self.low.x, self.mid.x, self.high.x);
                let most = super::triangles::max3(self.low.x, self.mid.x, self.high.x);
                &&& whole(least) <= self.left(i) <= self.right(i) <= whole(most)
                &&& whole(self.low.y) <= self.row(i) <= whole(self.high.y)
            }),
    {
        let total = self.high.y - self.low.y;
        let lower = self.mid.y - self.low.y;
        assert(0 <= i * ONE <= total) by (nonlinear_arith)
            requires
                0 <= i,
                i <= total / (ONE as int),
                ONE == 0x1_0000_0000,
                total >= 0,
        ;
        lemma_fraction_part(i * ONE, total);
        lemma_along_between(self.low, self.high, ratio(i * ONE, total));
        if self.upper(i) {
            assert(i * ONE - lower >= 0) by (nonlinear_arith)
                requires
                    i > lower / (ONE as int) || lower == 0,
                    0 <= i,
                    lower >= 0,
                    ONE == 0x1_0000_0000,
            ;
            lemma_fraction_part(i * ONE - lower, self.high.y - self.mid.y);
            lemma_along_between(
                self.mid,
                self.high,
                ratio(i * ONE - lower, self.high.y - self.mid.y),
            );
        } else {
            assert(i * ONE <= lower) by (nonlinear_arith)
                requires
                    i <= lower / (ONE as int),
                    0 <= i,
                    lower >= 0,
                    ONE == 0x1_0000_0000,
            ;
            lemma_fraction_part(i * ONE, lower);
            lemma_along_between(self.low, self.mid, ratio(i * ONE, lower));
        }
    }
}

/// Both ways of filling a triangle keep to one box: every pixel that the sweep
/// paints lies in the bounding box that the membership test scans.
pub proof fn lemma_sweep_within_box(
    a: Vector3,
    b: Vector3,
    c: Vector3,
    width: int,
    height: int,
    p: (int, int),
)
    requires
        a.within(COORD_MAX as int),
        b.within(COORD_MAX as int),
        c.within(COORD_MAX as int),
        swept(a, b, c, width, height).contains(p),
    ensures
        width >= 1,
        height >= 1,
        bounding_box(a, b, c, width, height).contains(p.0, p.1),
{
    let s = by_height(a, b, c);
    let i = choose|i: int| 0 <= i <= s.last() && #[trigger] s.paints(i, p, width, height);
    s.lemma_row_within(i);
}

/// Whether `p` is the point of the edge from `from` up to `to` that a row at the
/// height `part` above `from` meets, but for the rounding: it lies off the line
/// through the two ends by less than one unit, and below the row by no more than
/// one unit for each `ONE` units that the edge is high, and one more.
pub open spec fn follows(from: Vector3, to: Vector3, part: int, p: Vector3) -> bool {
    let rise = to.y - from.y;
    &&& magnitude(turn(from, to, p)) < magnitude(to.x - from.x) + rise
    &&& from.y + part - rise / (ONE as int) - 1 <= p.y <= from.y + part
}

/// The point that the sweep takes on an edge follows the edge.
pub proof fn lemma_along_follows(from: Vector3, to: Vector3, part: int)
    requires
        0 <= part <= to.y - from.y,
        0 < to.y - from.y,
    ensures
        follows(
            from,
            to,
            part,
            from.plus(to.minus(from).scaled(ratio(part, to.y - from.y))),
        ),
{
    let run = to.x - from.x;
    let rise = to.y - from.y;
    let t = ratio(part, rise);
    let x = product(run, t);
    let y = product(rise, t);
    let p = from.plus(to.minus(from).scaled(t));
    lemma_fraction_part(part, rise);
    lemma_ratio_error(part, rise);
    lemma_product_error(run, t);
    lemma_product_error(rise, t);
    let miss_x = run * t - ONE * x;
    let miss_y = rise * t - ONE * y;
    assert(turn(from, to, p) == run * y - rise * x);
    assert(ONE * (run * y - rise * x) == rise * miss_x - run * miss_y) by (nonlinear_arith)
        requires
            miss_x == run * t - ONE * x,
            miss_y == rise * t - ONE * y,
    ;
    assert(rise * t >= 0) by (nonlinear_arith)
        requires
            rise > 0,
            t >= 0,
    ;
    assert(0 <= miss_y < ONE);
    let size = magnitude(run);
    assert(-(ONE * rise) < rise * miss_x < ONE * rise) by (nonlinear_arith)
        requires
            -ONE < miss_x < ONE,
            rise > 0,
    ;
    assert(-(ONE * size) < run * miss_y < ONE * size || run == 0 && run * miss_y == 0)
        by (nonlinear_arith)
        requires
            0 <= miss_y < ONE,
            size == run || size == -run,
            size >= 0,
    ;
    assert(magnitude(turn(from, to, p)) < size + rise) by (nonlinear_arith)
        requires
            ONE * turn(from, to, p) == rise * miss_x - run * miss_y,
            -(ONE * rise) < rise * miss_x < ONE * rise,
            -(ONE * size) < run * miss_y < ONE * size || run == 0 && run * miss_y == 0,
            rise > 0,
            size >= 0,
            ONE > 0,
            magnitude(turn(from, to, p)) == turn(from, to, p) || magnitude(turn(from, to, p))
                == -turn(from, to, p),
    ;
    assert(t * rise == rise * t) by (nonlinear_arith);
    assert(ONE * y <= part * ONE);
    assert(y <= part) by (nonlinear_arith)
        requires
            ONE * y <= part * ONE,
            ONE > 0,
    ;
    vstd::arithmetic::div_mod::lemma_fundamental_div_mod(rise, ONE as int);
    assert(ONE * (part - y) < ONE * (rise / (ONE as int) + 2)) by (nonlinear_arith)
        requires
            part * ONE - rise < ONE * y + ONE,
            rise < ONE * (rise / (ONE as int) + 1),
    ;
    assert(part - y < rise / (ONE as int) + 2) by (nonlinear_arith)
        requires
            ONE * (part - y) < ONE * (rise / (ONE as int) + 2),
            ONE > 0,
    ;
}

impl Sweep {
    /// The height above the lowest corner at which row `i` is swept.
    pub open spec fn level(self, i: int) -> int {
        i * ONE
    }

    /// The two ends of what a row of the sweep paints follow the edges of the
    /// triangle: one the long edge, the other the short edge on whose side of the
    /// middle corner the row lies.
    pub proof fn lemma_edges_are_followed(self, i: int)
        requires
            self.wf(),
            0 <= i <= self.last(),
        ensures
            follows(self.low, self.high, self.level(i), self.long_edge(i)),
            self.upper(i) ==> follows(
                self.mid,
                self.high,
                self.level(i) - (self.mid.y - self.low.y),
                self.short_edge(i),
            ),
            !self.upper(i) ==> follows(self.low, self.mid, self.level(i), self.short_edge(i)),
    {
        let total = self.high.y - self.low.y;
        let lower = self.mid.y - self.low.y;
        assert(0 <= i * ONE <= total) by (nonlinear_arith)
            requires
                0 <= i,
                i <= total / (ONE as int),
                ONE == 0x1_0000_0000,
                total >= 0,
        ;
        lemma_along_follows(self.low, self.high, i * ONE);
        if self.upper(i) {
            assert(i * ONE - lower >= 0) by (nonlinear_arith)
                requires
                    i > lower / (ONE as int) || lower == 0,
                    0 <= i,
                    lower >= 0,
                    ONE == 0x1_0000_0000,
            ;
            lemma_along_follows(self.mid, self.high, i * ONE - lower);
        } else {
            assert(i * ONE <= lower) by (nonlinear_arith)
                requires
                    i <= lower / (ONE as int),
                    0 <= i,
                    lower >= 0,
                    ONE == 0x1_0000_0000,
            ;
            lemma_along_follows(self.low, self.mid, i * ONE);
        }
    }
}

/// Whether the height `h` is that of the centres of a row of pixels.
pub open spec fn level_with_a_row(h: int) -> bool {
    h % (ONE as int) == 0
}

impl Sweep {
    /// Whether each corner is as high as the centres of a row of pixels.
    pub open spec fn level_with_rows(self) -> bool {
        level_with_a_row(self.low.y) && level_with_a_row(self.mid.y) && level_with_a_row(
            self.high.y,
        )
    }

    /// The rows of the three corners are swept, and in them the edges are
    /// followed to the corners themselves.
    pub proof fn lemma_corners_are_met(self)
        requires
            self.wf(),
            self.level_with_rows(),
        ensures
            self.long_edge(0) == self.low,
            self.row(0) == whole(self.low.y),
            self.long_edge(self.last()) == self.high,
            self.row(self.last()) == whole(self.high.y),
            0 <= whole(self.mid.y - self.low.y) <= self.last(),
            self.short_edge(whole(self.mid.y - self.low.y)) == self.mid,
            self.row(whole(self.mid.y - self.low.y)) == whole(self.mid.y),
    {
        let total = self.high.y - self.low.y;
        let lower = self.mid.y - self.low.y;
        let upper = self.high.y - self.mid.y;
        let last = self.last();
        let turn = whole(lower);
        assert(total % (ONE as int) == 0 && lower % (ONE as int) == 0);
        assert(last * ONE == total && turn * ONE == lower && 0 * ONE == 0) by (nonlinear_arith)
            requires
                last == total / (ONE as int),
                turn == lower / (ONE as int),
                total % (ONE as int) == 0,
                lower % (ONE as int) == 0,
                ONE == 0x1_0000_0000,
        ;
        lemma_ratio_basics(total);
        lemma_product_zero(self.high.x - self.low.x);
        lemma_product_zero(self.high.y - self.low.y);
        lemma_product_zero(self.high.z - self.low.z);
        lemma_product_one(self.high.x - self.low.x);
        lemma_product_one(self.high.y - self.low.y);
        lemma_product_one(self.high.z - self.low.z);
        if lower == 0 {
            lemma_ratio_basics(upper);
            lemma_product_zero(self.high.x - self.mid.x);
            lemma_product_zero(self.high.y - self.mid.y);
            lemma_product_zero(self.high.z - self.mid.z);
        } else {
            lemma_ratio_basics(lower);
            lemma_product_one(self.mid.x - self.low.x);
            lemma_product_one(self.mid.y - self.low.y);
            lemma_product_one(self.mid.z - self.low.z);
        }
    }
}

/// The sweep paints the corners of a triangle: if the corners are as high as the
/// centres of rows of pixels and not all at one height, the pixel of the canvas
/// that holds a corner is painted.
pub proof fn lemma_corners_are_swept(a: Vector3, b: Vector3, c: Vector3, width: int, height: int)
    requires
        a.within(COORD_MAX as int),
        b.within(COORD_MAX as int),
        c.within(COORD_MAX as int),
        !flat(a, b, c),
        level_with_a_row(a.y),
        level_with_a_row(b.y),
        level_with_a_row(c.y),
    ensures
        0 <= whole(a.x) < width && 0 <= whole(a.y) < height ==> swept(a, b, c, width, height).contains(
            (whole(a.x), whole(a.y)),
        ),
        0 <= whole(b.x) < width && 0 <= whole(b.y) < height ==> swept(a, b, c, width, height).contains(
            (whole(b.x), whole(b.y)),
        ),
        0 <= whole(c.x) < width && 0 <= whole(c.y) < height ==> swept(a, b, c, width, height).contains(
            (whole(c.x), whole(c.y)),
        ),
{
    let s = by_height(a, b, c);
    s.lemma_corners_are_met();
    let at_low = (whole(s.low.x), whole(s.low.y));
    let at_mid = (whole(s.mid.x), whole(s.mid.y));
    let at_high = (whole(s.high.x), whole(s.high.y));
    let turn = whole(s.mid.y - s.low.y);
    if 0 <= at_low.0 < width && 0 <= at_low.1 < height {
        assert(s.paints(0, at_low, width, height));
        assert(s.painted(width, height).contains(at_low));
    }
    if 0 <= at_high.0 < width && 0 <= at_high.1 < height {
        assert(s.paints(s.last(), at_high, width, height));
        assert(s.painted(width, height).contains(at_high));
    }
    if 0 <= at_mid.0 < width && 0 <= at_mid.1 < height {
        assert(s.paints(turn, at_mid, width, height));
        assert(s.painted(width, height).contains(at_mid));
    }
}

/// Whether the corner `v` lies on a canvas of the given size.
pub open spec fn on_canvas(v: Vector3, width: int, height: int) -> bool {
    0 <= v.x && whole(v.x) < width && 0 <= v.y && whole(v.y) < height
}

/// The sweep leaves out no row: if the corners of a triangle lie on the canvas,
/// each as high as the centres of a row of pixels, and not all at one height, the
/// sweep paints a pixel in every row of the bounding box that the membership test
/// scans.
pub proof fn lemma_every_row_is_swept(
    a: Vector3,
    b: Vector3,
    c: Vector3,
    width: int,
    height: int,
    y: int,
)
    requires
        a.within(COORD_MAX as int),
        b.within(COORD_MAX as int),
        c.within(COORD_MAX as int),
        !flat(a, b, c),
        level_with_a_row(a.y),
        level_with_a_row(b.y),
        level_with_a_row(c.y),
        on_canvas(a, width, height),
        on_canvas(b, width, height),
        on_canvas(c, width, height),
        bounding_box(a, b, c, width, height).y_min <= y <= bounding_box(a, b, c, width, height).y_max,
    ensures
        exists|x: int| swept(a, b, c, width, height).contains((x, y)),
{
    let s = by_height(a, b, c);
    let total = s.high.y - s.low.y;
    let i = y - whole(s.low.y);
    assert(s.low.y == (s.low.y / (ONE as int)) * ONE && s.high.y == (s.high.y / (ONE as int)) * ONE)
        by (nonlinear_arith)
        requires
            s.low.y % (ONE as int) == 0,
            s.high.y % (ONE as int) == 0,
            ONE == 0x1_0000_0000,
    ;
    assert(i * ONE + s.low.y == y * ONE && total == (s.high.y / (ONE as int) - s.low.y / (
    ONE as int)) * ONE) by (nonlinear_arith)
        requires
            i == y - s.low.y / (ONE as int),
            total == s.high.y - s.low.y,
            s.low.y == (s.low.y / (ONE as int)) * ONE,
            s.high.y == (s.high.y / (ONE as int)) * ONE,
    ;
    assert((y * ONE) / (ONE as int) == y && ((s.high.y / (ONE as int) - s.low.y / (ONE as int))
        * ONE) / (ONE as int) == s.high.y / (ONE as int) - s.low.y / (ONE as int))
        by (nonlinear_arith)
        requires
            ONE == 0x1_0000_0000,
    ;
    assert(y * ONE >= 0) by (nonlinear_arith)
        requires
            y >= 0,
            ONE > 0,
    ;
    assert(0 <= i <= s.last());
    assert(s.row(i) == y);
    s.lemma_row_within(i);
    let x = s.left(i);
    assert(s.paints(i, (x, y), width, height));
    assert(s.painted(width, height).contains((x, y)));
    assert(swept(a, b, c, width, height).contains((x, y)));
}

/// The centre of the pixel in the column `col` of the row that lies `j` rows
/// above the point `from`.
pub open spec fn above(from: Vector3, col: int, j: int) -> Vector3 {
    Vector3 { x: col * ONE, y: from.y + j * ONE, z: 0 }
}

/// Where the sweep meets an edge between two centres of pixels, it takes the
/// column in which the edge crosses the row, or the one before it if the edge
/// crosses at the centre of a pixel: the centre of the pixel taken is on the edge
/// or to one side of it, and the next centre is on the edge or to the other side.
pub proof fn lemma_edge_column(from: Vector3, to: Vector3, j: int)
    requires
        from.within(COORD_MAX as int),
        to.within(COORD_MAX as int),
        on_grid(from),
        on_grid(to),
        0 <= from.x,
        0 <= to.x,
        0 < to.y - from.y,
        0 <= j,
        j * ONE <= to.y - from.y,
    ensures
        ({
            let at = from.plus(to.minus(from).scaled(ratio(j * ONE, to.y - from.y)));
            &&& 0 <= at.x
            &&& turn(from, to, above(from, whole(at.x), j)) >= 0
            &&& turn(from, to, above(from, whole(at.x) + 1, j)) <= 0
        }),
{
    let run = to.x - from.x;
    let rise = to.y - from.y;
    let t = ratio(j * ONE, rise);
    let at = from.plus(to.minus(from).scaled(t));
    let g = run / (ONE as int);
    let h = rise / (ONE as int);
    lemma_fraction_part(j * ONE, rise);
    lemma_along_between(from, to, t);
    lemma_ratio_error(j * ONE, rise);
    lemma_product_on_grid(run, t);
    assert(j * ONE >= 0) by (nonlinear_arith)
        requires
            j >= 0,
            ONE > 0,
    ;
    assert(at.x == from.x + g * t);
    let col = whole(at.x);
    let k = col - from.x / (ONE as int);
    assert(k * ONE <= g * t < k * ONE + ONE) by (nonlinear_arith)
        requires
            col * ONE <= at.x < col * ONE + ONE,
            at.x == from.x + g * t,
            from.x == (from.x / (ONE as int)) * ONE,
            k == col - from.x / (ONE as int),
    ;
    assert(t * h <= j * ONE < t * h + h) by (nonlinear_arith)
        requires
            0 <= (j * ONE) * ONE - t * rise < rise,
            rise == h * ONE,
            ONE > 0,
    ;
    let low = g * j - h * (k + 1);
    let high = g * j - h * k;
    assert(-0x4000 <= g <= 0x4000 && 0 < h <= 0x4000);
    if g >= 0 {
        assert(h * (k * ONE) <= h * (g * t) && g * (t * h) <= g * (j * ONE) && g * (j * ONE) <= g
            * (t * h) + g * h && h * (g * t) < h * (k * ONE + ONE) && g * h <= 0x1000_0000)
            by (nonlinear_arith)
            requires
                k * ONE <= g * t < k * ONE + ONE,
                t * h <= j * ONE < t * h + h,
                0 <= g <= 0x4000,
                0 < h <= 0x4000,
        ;
        lemma_regroup(g, t, h, j, k);
        assert(high >= 0 && low <= 0) by (nonlinear_arith)
            requires
                (h * k) * ONE <= (g * j) * ONE,
                (g * j) * ONE < (h * (k + 1)) * ONE + g * h,
                g * h <= 0x1000_0000,
                ONE == 0x1_0000_0000,
                high == g * j - h * k,
                low == g * j - h * (k + 1),
        ;
    } else {
        assert(h * (k * ONE) <= h * (g * t) && g * (t * h) >= g * (j * ONE) && g * (t * h) <= g * (
        j * ONE) - g * h && h * (g * t) < h * (k * ONE + ONE) && -(g * h) <= 0x1000_0000)
            by (nonlinear_arith)
            requires
                k * ONE <= g * t < k * ONE + ONE,
                t * h <= j * ONE < t * h + h,
                -0x4000 <= g < 0,
                0 < h <= 0x4000,
        ;
        lemma_regroup(g, t, h, j, k);
        assert(high >= 0 && low <= 0) by (nonlinear_arith)
            requires
                (h * k) * ONE <= (g * j) * ONE - g * h,
                (g * j) * ONE < (h * (k + 1)) * ONE,
                -(g * h) <= 0x1000_0000,
                ONE == 0x1_0000_0000,
                high == g * j - h * k,
                low == g * j - h * (k + 1),
        ;
    }
    let q0 = above(from, col, j);
    let q1 = above(from, col + 1, j);
    assert(turn(from, to, q0) == run * (j * ONE) - rise * (col * ONE - from.x));
    assert(turn(from, to, q1) == run * (j * ONE) - rise * ((col + 1) * ONE - from.x));
    assert(run * (j * ONE) - rise * (col * ONE - from.x) == (ONE * ONE) * high && run * (j * ONE)
        - rise * ((col + 1) * ONE - from.x) == (ONE * ONE) * low) by (nonlinear_arith)
        requires
            run == g * ONE,
            rise == h * ONE,
            from.x == (from.x / (ONE as int)) * ONE,
            k == col - from.x / (ONE as int),
            high == g * j - h * k,
            low == g * j - h * (k + 1),
    ;
    assert((ONE * ONE) * high >= 0 && (ONE * ONE) * low <= 0) by (nonlinear_arith)
        requires
            high >= 0,
            low <= 0,
            ONE > 0,
    ;
}

/// Products of three numbers, put in the order that [`lemma_edge_column`] needs.
proof fn lemma_regroup(g: int, t: int, h: int, j: int, k: int)
    ensures
        h * (g * t) == g * (t * h),
        h * (k * ONE) == (h * k) * ONE,
        g * (j * ONE) == (g * j) * ONE,
        h * (k * ONE + ONE) == (h * (k + 1)) * ONE,
{
    assert(h * (g * t) == g * (t * h)) by (nonlinear_arith);
    assert(h * (k * ONE) == (h * k) * ONE) by (nonlinear_arith);
    assert(g * (j * ONE) == (g * j) * ONE) by (nonlinear_arith);
    assert(h * (k * ONE + ONE) == (h * (k + 1)) * ONE) by (nonlinear_arith);
}

} // verus!
