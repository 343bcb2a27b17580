//! Lines between two pixels.

use super::canvas::{Canvas, Rgb, RgbCanvas};
use vstd::arithmetic::div_mod::lemma_fundamental_div_mod_converse;
use vstd::prelude::*;

verus! {

/// A line made ready for drawing: its endpoints with the axes exchanged where the
/// line is steep, so that it is at least as long as it is high, and in the order
/// that lets the long axis grow from the first to the second.
pub struct Run {
    /// Whether the axes are exchanged: `a` then counts rows and `b` columns.
    pub steep: bool,
    pub a0: int,
    pub b0: int,
    pub a1: int,
    pub b1: int,
}

/// The distance between `a` and `b`.
pub open spec fn gap(a: int, b: int) -> int {
    if a <= b {
        b - a
    } else {
        a - b
    }
}

/// The line from `(x0, y0)` to `(x1, y1)` made ready for drawing.
pub open spec fn run(x0: int, y0: int, x1: int, y1: int) -> Run {
    let steep = gap(x0, x1) < gap(y0, y1);
    let (a0, b0, a1, b1) = if steep {
        (y0, x0, y1, x1)
    } else {
        (x0, y0, x1, y1)
    };
    if a0 > a1 {
        Run { steep, a0: a1, b0: b1, a1: a0, b1: b0 }
    } else {
        Run { steep, a0, b0, a1, b1 }
    }
}

/// How far a line that is `length` long and `height` high has moved along its
/// short axis after `i` steps along the long one: `i * height / length`, rounded to
/// the nearest whole number, a half rounded down.
pub open spec fn climb(i: int, length: int, height: int) -> int {
    if length == 0 {
        0
    } else {
        (2 * i * height + length - 1) / (2 * length)
    }
}

impl Run {
    /// The number of steps along the long axis.
    pub open spec fn length(self) -> int {
        self.a1 - self.a0
    }

    /// The number of steps along the short axis.
    pub open spec fn height(self) -> int {
        gap(self.b0, self.b1)
    }

    /// The pixel that is painted at step `i`, as `(x, y)`.
    pub open spec fn pixel(self, i: int) -> (int, int) {
        let a = self.a0 + i;
        let k = climb(i, self.length(), self.height());
        let b = if self.b1 > self.b0 {
            self.b0 + k
        } else {
            self.b0 - k
        };
        if self.steep {
            (b, a)
        } else {
            (a, b)
        }
    }

    /// The pixels that are painted in the first `n` steps.
    pub open spec fn first(self, n: int) -> Set<(int, int)> {
        Set::new(|p: (int, int)| exists|i: int| 0 <= i < n && p == #[trigger] self.pixel(i))
    }

    /// All pixels of the line.
    pub open spec fn pixels(self) -> Set<(int, int)> {
        self.first(self.length() + 1)
    }
}

/// The pixels of the line from `(x0, y0)` to `(x1, y1)`.
pub open spec fn line_pixels(x0: int, y0: int, x1: int, y1: int) -> Set<(int, int)> {
    run(x0, y0, x1, y1).pixels()
}

/// The one number of steps along the short axis that leaves the drawing error
/// `2 * i * height - 2 * length * k` above `-length` and at most `length` is
/// `climb(i, length, height)`.
pub proof fn lemma_climb_is(i: int, length: int, height: int, k: int)
    requires
        length > 0,
        -length < 2 * i * height - 2 * length * k <= length,
    ensures
        climb(i, length, height) == k,
{
    let n = 2 * i * height + length - 1;
    let d = 2 * length;
    let r = n - k * d;
    assert(k * d == 2 * length * k) by (nonlinear_arith)
        requires
            d == 2 * length,
    ;
    lemma_fundamental_div_mod_converse(n, d, k, r);
}

/// What `climb` says of the drawing error, the other way round.
pub proof fn lemma_climb_error(i: int, length: int, height: int)
    requires
        length > 0,
    ensures
        -length < 2 * i * height - 2 * length * climb(i, length, height) <= length,
{
    let n = 2 * i * height + length - 1;
    let d = 2 * length;
    vstd::arithmetic::div_mod::lemma_fundamental_div_mod(n, d);
    vstd::arithmetic::div_mod::lemma_mod_bound(n, d);
    assert(d * (n / d) == 2 * length * climb(i, length, height)) by (nonlinear_arith)
        requires
            d == 2 * length,
            n / d == climb(i, length, height),
    ;
}

/// A line is the same set of pixels from either end.
pub proof fn lemma_line_symmetric(x0: int, y0: int, x1: int, y1: int)
    ensures
        run(x0, y0, x1, y1) == run(x1, y1, x0, y0),
        line_pixels(x0, y0, x1, y1) == line_pixels(x1, y1, x0, y0),
{
}

/// A line holds both of its ends: the first and the last pixel painted are the ends.
pub proof fn lemma_line_ends(x0: int, y0: int, x1: int, y1: int)
    ensures
        line_pixels(x0, y0, x1, y1).contains((x0, y0)),
        line_pixels(x0, y0, x1, y1).contains((x1, y1)),
{
    let r = run(x0, y0, x1, y1);
    let n = r.length();
    if n > 0 {
        lemma_climb_is(0, n, r.height(), 0);
        assert(2 * n * r.height() - 2 * n * r.height() == 0);
        lemma_climb_is(n, n, r.height(), r.height());
    }
    let first = r.pixel(0);
    let last = r.pixel(n);
    assert(r.pixels().contains(first));
    assert(r.pixels().contains(last));
    assert(first == (x0, y0) || first == (x1, y1));
    assert(last == (x0, y0) || last == (x1, y1));
    assert(first == (x0, y0) ==> last == (x1, y1));
    assert(first == (x1, y1) ==> last == (x0, y0));
}

/// A line has no gap: from one step to the next the pixel moves by one along the
/// long axis and by at most one, toward the far end, along the short axis.
pub proof fn lemma_line_unbroken(x0: int, y0: int, x1: int, y1: int, i: int)
    requires
        0 <= i < run(x0, y0, x1, y1).length(),
    ensures
        ({
            let r = run(x0, y0, x1, y1);
            let step = climb(i + 1, r.length(), r.height()) - climb(i, r.length(), r.height());
            &&& step == 0 || step == 1
            &&& gap(r.pixel(i).0, r.pixel(i + 1).0) <= 1
            &&& gap(r.pixel(i).1, r.pixel(i + 1).1) <= 1
            &&& r.pixel(i) != r.pixel(i + 1)
        }),
{
    let r = run(x0, y0, x1, y1);
    let n = r.length();
    let h = r.height();
    let k = climb(i, n, h);
    lemma_climb_error(i, n, h);
    let e = 2 * i * h - 2 * n * k;
    assert(2 * (i + 1) * h == 2 * i * h + 2 * h) by (nonlinear_arith);
    assert(2 * n * (k + 1) == 2 * n * k + 2 * n) by (nonlinear_arith);
    if e + 2 * h > n {
        lemma_climb_is(i + 1, n, h, k + 1);
    } else {
        lemma_climb_is(i + 1, n, h, k);
    }
}

/// A line stays between its ends: along each axis every pixel of the line lies
/// between the two ends.
pub proof fn lemma_line_between_ends(x0: int, y0: int, x1: int, y1: int, p: (int, int))
    requires
        line_pixels(x0, y0, x1, y1).contains(p),
    ensures
        x0 <= p.0 <= x1 || x1 <= p.0 <= x0,
        y0 <= p.1 <= y1 || y1 <= p.1 <= y0,
{
    let r = run(x0, y0, x1, y1);
    let n = r.length();
    let h = r.height();
    let i = choose|i: int| 0 <= i < n + 1 && p == #[trigger] r.pixel(i);
    if n > 0 {
        lemma_climb_error(i, n, h);
        let k = climb(i, n, h);
        assert(2 * n * k < 2 * i * h + n);
        assert(2 * n * k > 2 * i * h - n - 1);
        assert(k <= h) by (nonlinear_arith)
            requires
                2 * n * k < 2 * i * h + n,
                0 <= i <= n,
                n > 0,
                h >= 0,
        ;
        assert(k >= 0) by (nonlinear_arith)
            requires
                2 * n * k > 2 * i * h - n - 1,
                0 <= i,
                n > 0,
                h >= 0,
        ;
    }
}

/// No pixel of a line is painted twice: different steps paint different pixels.
pub proof fn lemma_line_once(x0: int, y0: int, x1: int, y1: int, i: int, j: int)
    requires
        i != j,
    ensures
        run(x0, y0, x1, y1).pixel(i) != run(x0, y0, x1, y1).pixel(j),
{
}

/// The largest magnitude that a coordinate of an end of a line may have: beyond
/// it the distance between two ends, taken twice, leaves the range of `i64`.
pub const LINE_MAX: i64 = 0x1000_0000_0000_0000;

/// Draws the line from `(x0, y0)` to `(x1, y1)` in `color`. The ends may lie off
/// the canvas: the pixels of the line that the canvas does not hold are passed
/// over. No coordinate of an end may be further from zero than [`LINE_MAX`].
pub fn line(x0: i64, y0: i64, x1: i64, y1: i64, image: &mut RgbCanvas, color: Rgb)
    requires
        -LINE_MAX <= x0 <= LINE_MAX,
        -LINE_MAX <= y0 <= LINE_MAX,
        -LINE_MAX <= x1 <= LINE_MAX,
        -LINE_MAX <= y1 <= LINE_MAX,
    ensures
        final(image)@ == old(image)@.fill(
            line_pixels(x0 as int, y0 as int, x1 as int, y1 as int),
            color,
        ),
{
    let ghost r = run(x0 as int, y0 as int, x1 as int, y1 as int);
    let width = image.width() as i64;
    let height = image.height() as i64;
    let across = if x0 <= x1 { x1 - x0 } else { x0 - x1 };
    let up = if y0 <= y1 { y1 - y0 } else { y0 - y1 };
    let steep = across < up;
    let (mut a0, mut b0, mut a1, mut b1) = if steep {
        (y0, x0, y1, x1)
    } else {
        (x0, y0, x1, y1)
    };
    if a0 > a1 {
        let (a, b) = (a0, b0);
        a0 = a1;
        b0 = b1;
        a1 = a;
        b1 = b;
    }
    assert(r == Run { steep, a0: a0 as int, b0: b0 as int, a1: a1 as int, b1: b1 as int });
    let dx = a1 - a0;
    let dy = if b0 <= b1 { b1 - b0 } else { b0 - b1 };
    let d_error = dy * 2;
    let mut error: i64 = 0;
    let mut b = b0;
    let mut a = a0;
    let ghost mut k: int = 0;
    proof {
        assert(old(image)@.fill(r.first(0), color).pixels =~= old(image)@.pixels);
        if dx > 0 {
            lemma_climb_is(0, dx as int, dy as int, 0);
        }
    }
    while a <= a1
        invariant
            r == (Run { steep, a0: a0 as int, b0: b0 as int, a1: a1 as int, b1: b1 as int }),
            a0 <= a <= a1 + 1,
            dx == a1 - a0,
            dy == gap(b0 as int, b1 as int),
            0 <= dy <= dx,
            d_error == 2 * dy,
            image@.width == width,
            image@.height == height,
            old(image)@.wf(),
            width == old(image)@.width,
            height == old(image)@.height,
            0 <= width <= u32::MAX,
            0 <= height <= u32::MAX,
            -LINE_MAX <= a0 <= a1 <= LINE_MAX,
            -LINE_MAX <= b0 <= LINE_MAX,
            -LINE_MAX <= b1 <= LINE_MAX,
            0 <= k <= dy + 1,
            a <= a1 ==> k <= dy,
            b == if b1 > b0 { b0 + k } else { b0 - k },
            error == 2 * (a - a0) * dy - 2 * dx * k,
            k == climb(a - a0, dx as int, dy as int),
            dx > 0 ==> -dx < error <= dx,
            dx == 0 ==> error == 0,
            image@ == old(image)@.fill(r.first(a - a0), color),
        decreases a1 + 1 - a,
    {
        let ghost i = a - a0;
        let ghost before = image@;
        let (x, y) = if steep {
            (b, a)
        } else {
            (a, b)
        };
        assert(r.pixel(i) == (x as int, y as int));
        if 0 <= x && x < width && 0 <= y && y < height {
            image.put_pixel(x as u32, y as u32, color);
        }
        proof {
            let p = r.pixel(i);
            assert(r.first(i + 1) =~= r.first(i).insert(p)) by {
                assert forall|q: (int, int)| r.first(i).insert(p).contains(q) implies r.first(
                    i + 1,
                ).contains(q) by {
                    if q == p {
                        assert(q == r.pixel(i));
                    } else {
                        let j = choose|j: int| 0 <= j < i && q == #[trigger] r.pixel(j);
                        assert(0 <= j < i + 1 && q == r.pixel(j));
                    }
                }
            }
            assert(image@.pixels =~= old(image)@.fill(r.first(i + 1), color).pixels);
        }
        error = error + d_error;
        if error > dx {
            b = if b1 > b0 { b + 1 } else { b - 1 };
            error = error - dx * 2;
            proof {
                k = k + 1;
            }
        }
        a = a + 1;
        proof {
            assert(2 * (i + 1) * dy == 2 * i * dy + 2 * dy) by (nonlinear_arith);
            assert(2 * dx * (k - 1) == 2 * dx * k - 2 * dx) by (nonlinear_arith);
            if dx > 0 {
                lemma_climb_is(a - a0, dx as int, dy as int, k);
            }
            if a <= a1 {
                assert(k <= dy) by (nonlinear_arith)
                    requires
                        2 * dx * k < 2 * (a - a0) * dy + dx,
                        a - a0 <= dx,
                        dx > 0,
                        dy >= 0,
                ;
            }
        }
    }
}

} // verus!
