//! Where the two ways of filling a triangle agree.
//!
//! The laws here are about triangles of the pixel grid: the corners are centres of
//! pixels of the canvas and do not lie in one line. For such a triangle the
//! membership test paints the pixels whose centres the triangle holds, and the
//! sweep paints in each row from the column where one edge crosses the row to the
//! column where the other does, taking the column before where an edge crosses at
//! a centre. So each of the two paints no pixel that is more than one column away
//! from a pixel that the other paints in the same row.

use super::sweep::{above, by_height, flat, lemma_edge_column, on_canvas, swept, Sweep};
use super::triangles::{center, covered, lemma_covered_on_grid};
use crate::geometry::exact::{
    lemma_turn_along_row, lemma_turn_moved, lemma_turns_balance, lemma_within_any_order,
    lemma_within_is_between, on_grid, side, turn, within_by,
};
use crate::geometry::fixed::{whole, ONE};
use crate::geometry::ops::COORD_MAX;
use crate::geometry::types::Vector3;
use vstd::prelude::*;

verus! {

/// Whether `a`, `b`, `c` are the corners of a triangle of the pixel grid on a
/// canvas of the given size: centres of pixels of the canvas that do not lie in
/// one line.
pub open spec fn of_the_grid(a: Vector3, b: Vector3, c: Vector3, width: int, height: int) -> bool {
    &&& a.within(COORD_MAX as int) && b.within(COORD_MAX as int) && c.within(COORD_MAX as int)
    &&& on_grid(a) && on_grid(b) && on_grid(c)
    &&& on_canvas(a, width, height) && on_canvas(b, width, height) && on_canvas(c, width, height)
    &&& turn(a, b, c) != 0
}

impl Sweep {
    /// Whether the corners are centres of pixels with columns that are not
    /// negative.
    pub open spec fn of_the_grid(self) -> bool {
        &&& self.wf()
        &&& on_grid(self.low) && on_grid(self.mid) && on_grid(self.high)
        &&& 0 <= self.low.x && 0 <= self.mid.x && 0 <= self.high.x
    }

    /// The centre of the pixel in the column `col` of the row that row `i` of the
    /// sweep paints.
    pub open spec fn at(self, i: int, col: int) -> Vector3 {
        Vector3 { x: col * ONE, y: self.low.y + i * ONE, z: 0 }
    }

    /// The lower end of the short edge that row `i` follows.
    pub open spec fn short_from(self, i: int) -> Vector3 {
        if self.upper(i) {
            self.mid
        } else {
            self.low
        }
    }

    /// The upper end of the short edge that row `i` follows.
    pub open spec fn short_to(self, i: int) -> Vector3 {
        if self.upper(i) {
            self.high
        } else {
            self.mid
        }
    }

    /// The column that row `i` takes on the long edge.
    pub open spec fn long_column(self, i: int) -> int {
        whole(self.long_edge(i).x)
    }

    /// The column that row `i` takes on the short edge.
    pub open spec fn short_column(self, i: int) -> int {
        whole(self.short_edge(i).x)
    }

    /// On each of its two edges a row takes the column in which the edge crosses
    /// the row, or the one before it; it paints from the one column to the other;
    /// and it lies between the ends of the short edge that it follows.
    pub proof fn lemma_columns(self, i: int)
        requires
            self.of_the_grid(),
            0 <= i <= self.last(),
        ensures
            turn(self.low, self.high, self.at(i, self.long_column(i))) >= 0,
            turn(self.low, self.high, self.at(i, self.long_column(i) + 1)) <= 0,
            turn(self.short_from(i), self.short_to(i), self.at(i, self.short_column(i))) >= 0,
            turn(self.short_from(i), self.short_to(i), self.at(i, self.short_column(i) + 1)) <= 0,
            self.left(i) <= self.long_column(i) <= self.right(i),
            self.left(i) <= self.short_column(i) <= self.right(i),
            self.left(i) == self.long_column(i) || self.left(i) == self.short_column(i),
            self.right(i) == self.long_column(i) || self.right(i) == self.short_column(i),
            self.short_from(i).y <= self.at(i, 0).y <= self.short_to(i).y,
            self.short_from(i).y < self.short_to(i).y,
            self.low.y <= self.at(i, 0).y <= self.high.y,
            self.row(i) * ONE == self.at(i, 0).y,
    {
        let total = self.high.y - self.low.y;
        let lower = self.mid.y - self.low.y;
        let turn_row = whole(lower);
        assert(self.last() * ONE == total && turn_row * ONE == lower) by (nonlinear_arith)
            requires
                self.last() == total / (ONE as int),
                turn_row == lower / (ONE as int),
                total % (ONE as int) == 0,
                lower % (ONE as int) == 0,
                ONE == 0x1_0000_0000,
        ;
        assert(0 <= i * ONE <= total) by (nonlinear_arith)
            requires
                0 <= i <= self.last(),
                self.last() * ONE == total,
                ONE > 0,
        ;
        lemma_edge_column(self.low, self.high, i);
        assert(above(self.low, self.long_column(i), i) == self.at(i, self.long_column(i)));
        assert(above(self.low, self.long_column(i) + 1, i) == self.at(i, self.long_column(i) + 1));
        if self.upper(i) {
            let j = i - turn_row;
            assert(j * ONE == i * ONE - lower) by (nonlinear_arith)
                requires
                    j == i - turn_row,
                    turn_row * ONE == lower,
            ;
            lemma_edge_column(self.mid, self.high, j);
            assert(above(self.mid, self.short_column(i), j) == self.at(i, self.short_column(i)));
            assert(above(self.mid, self.short_column(i) + 1, j) == self.at(
                i,
                self.short_column(i) + 1,
            ));
        } else {
            assert(i * ONE <= lower) by (nonlinear_arith)
                requires
                    i <= turn_row,
                    turn_row * ONE == lower,
                    ONE > 0,
            ;
            lemma_edge_column(self.low, self.mid, i);
            assert(above(self.low, self.short_column(i), i) == self.at(i, self.short_column(i)));
            assert(above(self.low, self.short_column(i) + 1, i) == self.at(
                i,
                self.short_column(i) + 1,
            ));
        }
        assert(self.low.y == (self.low.y / (ONE as int)) * ONE) by (nonlinear_arith)
            requires
                self.low.y % (ONE as int) == 0,
                ONE == 0x1_0000_0000,
        ;
        assert(((self.low.y / (ONE as int) + i) * ONE) / (ONE as int) == self.low.y / (ONE as int)
            + i && (self.low.y / (ONE as int) + i) * ONE == self.low.y + i * ONE)
            by (nonlinear_arith)
            requires
                self.low.y == (self.low.y / (ONE as int)) * ONE,
                ONE == 0x1_0000_0000,
        ;
    }
}

/// From one centre of a pixel to a later one in the same row, twice the area of
/// the triangle that the centre makes with an edge that rises does not grow; and
/// it falls if the edge has a height and the centre is another.
proof fn lemma_turn_falls(from: Vector3, to: Vector3, s: Sweep, i: int, x: int, later: int)
    requires
        from.y <= to.y,
    ensures
        x <= later ==> turn(from, to, s.at(i, later)) <= turn(from, to, s.at(i, x)),
        from.y < to.y && x < later ==> turn(from, to, s.at(i, later)) < turn(from, to, s.at(i, x)),
{
    lemma_turn_along_row(from, to, s.at(i, x), s.at(i, later));
    let rise = to.y - from.y;
    let step = later * ONE - x * ONE;
    if x <= later {
        assert(step >= 0 && (x < later ==> step > 0)) by (nonlinear_arith)
            requires
                step == later * ONE - x * ONE,
                x <= later,
                ONE > 0,
        ;
        assert(rise * step >= 0 && (rise > 0 && step > 0 ==> rise * step > 0)) by (nonlinear_arith)
            requires
                rise >= 0,
                step >= 0,
        ;
    }
}

/// Whether the centre `p` lies on the triangle's side of the long edge, or on the
/// edge.
pub open spec fn long_side(s: Sweep, p: Vector3) -> bool {
    side(turn(s.high, s.low, p), turn(s.low, s.mid, s.high)) >= 0
}

/// Whether the centre `p` lies on the triangle's side of the short edge that row
/// `i` follows, or on the edge.
pub open spec fn short_side(s: Sweep, i: int, p: Vector3) -> bool {
    side(turn(s.short_from(i), s.short_to(i), p), turn(s.low, s.mid, s.high)) >= 0
}

/// In a row of the sweep a centre that lies on the triangle's side of the long
/// edge and of the short edge that the row follows lies inside the triangle or
/// on its boundary: the third edge cannot be crossed in that row.
proof fn lemma_two_edges_suffice(s: Sweep, i: int, x: int)
    requires
        s.of_the_grid(),
        turn(s.low, s.mid, s.high) != 0,
        0 <= i <= s.last(),
        long_side(s, s.at(i, x)),
        short_side(s, i, s.at(i, x)),
    ensures
        within_by(s.low, s.mid, s.high, s.at(i, x), -1),
{
    let p = s.at(i, x);
    let whole_turn = turn(s.low, s.mid, s.high);
    s.lemma_columns(i);
    lemma_turns_balance(s.low, s.mid, s.high, p);
    let tl = side(turn(s.mid, s.high, p), whole_turn);
    let tm = side(turn(s.high, s.low, p), whole_turn);
    let th = side(turn(s.low, s.mid, p), whole_turn);
    let (dl, dm, dh) = (s.low.y - p.y, s.mid.y - p.y, s.high.y - p.y);
    assert(tl * dl + tm * dm + th * dh == 0) by (nonlinear_arith)
        requires
            turn(s.mid, s.high, p) * dl + turn(s.high, s.low, p) * dm + turn(s.low, s.mid, p) * dh
                == 0,
            tl == turn(s.mid, s.high, p) && tm == turn(s.high, s.low, p) && th == turn(
                s.low,
                s.mid,
                p,
            ) || tl == -turn(s.mid, s.high, p) && tm == -turn(s.high, s.low, p) && th == -turn(
                s.low,
                s.mid,
                p,
            ),
    ;
    assert(tl + tm + th > 0);
    if s.upper(i) {
        assert(tl >= 0 && tm >= 0 && dl <= 0 && dm <= 0 && dh >= 0);
        assert(th >= 0) by (nonlinear_arith)
            requires
                tl * dl + tm * dm + th * dh == 0,
                tl >= 0,
                tm >= 0,
                dl <= 0,
                dm <= 0,
                dh >= 0,
                dh > 0 || (dl < 0 && dm < 0),
                tl + tm + th > 0,
        ;
    } else {
        assert(th >= 0 && tm >= 0 && dl <= 0 && dm >= 0 && dh >= 0);
        assert(tl >= 0) by (nonlinear_arith)
            requires
                tl * dl + tm * dm + th * dh == 0,
                th >= 0,
                tm >= 0,
                dl <= 0,
                dm >= 0,
                dh >= 0,
                dl < 0 || (dm > 0 && dh > 0),
                tl + tm + th > 0,
        ;
    }
}

/// Whether the sweep paints in its row `i` the column `col`, which is the column
/// `x` or the one before it.
pub open spec fn swept_beside(s: Sweep, i: int, x: int, col: int) -> bool {
    s.left(i) <= col <= s.right(i) && x - 1 <= col <= x
}

/// Whether the centre of the pixel in column `col` of row `i` of the sweep, which
/// is the column `x` or the one after it, lies inside the triangle or on its
/// boundary.
pub open spec fn held_beside(s: Sweep, i: int, x: int, col: int) -> bool {
    within_by(s.low, s.mid, s.high, s.at(i, col), -1) && x <= col <= x + 1
}

/// In a row of the sweep, a centre that the triangle holds is painted by the
/// sweep, or the column before it is.
proof fn lemma_held_is_swept_beside(s: Sweep, i: int, x: int)
    requires
        s.of_the_grid(),
        turn(s.low, s.mid, s.high) != 0,
        0 <= i <= s.last(),
        within_by(s.low, s.mid, s.high, s.at(i, x), -1),
    ensures
        exists|col: int| #[trigger] swept_beside(s, i, x, col),
{
    let p = s.at(i, x);
    let cl = s.long_column(i);
    let cs = s.short_column(i);
    s.lemma_columns(i);
    lemma_turn_moved(s.low, s.high, p);
    lemma_turn_falls(s.low, s.high, s, i, x, cl);
    lemma_turn_falls(s.low, s.high, s, i, cl + 1, x);
    lemma_turn_falls(s.short_from(i), s.short_to(i), s, i, x, cs);
    lemma_turn_falls(s.short_from(i), s.short_to(i), s, i, cs + 1, x);
    if turn(s.low, s.mid, s.high) > 0 {
        assert(cl <= x <= cs + 1);
        let col = if x <= cs { x } else { cs };
        assert(swept_beside(s, i, x, col));
    } else {
        assert(cs <= x <= cl + 1);
        let col = if x <= cl { x } else { cl };
        assert(swept_beside(s, i, x, col));
    }
}

/// In a row of the sweep in which the triangle holds the centre of a pixel, a
/// pixel that the sweep paints has its centre in the triangle, or the next one in
/// the row has.
proof fn lemma_swept_is_held_beside(s: Sweep, i: int, x: int, x1: int)
    requires
        s.of_the_grid(),
        turn(s.low, s.mid, s.high) != 0,
        0 <= i <= s.last(),
        s.left(i) <= x <= s.right(i),
        within_by(s.low, s.mid, s.high, s.at(i, x1), -1),
    ensures
        exists|col: int| #[trigger] held_beside(s, i, x, col),
{
    let cl = s.long_column(i);
    let cs = s.short_column(i);
    s.lemma_columns(i);
    lemma_turn_moved(s.low, s.high, s.at(i, x1));
    lemma_turn_moved(s.low, s.high, s.at(i, x));
    lemma_turn_moved(s.low, s.high, s.at(i, x + 1));
    lemma_turn_falls(s.low, s.high, s, i, x1, cl);
    lemma_turn_falls(s.low, s.high, s, i, cl + 1, x1);
    lemma_turn_falls(s.short_from(i), s.short_to(i), s, i, x1, cs);
    lemma_turn_falls(s.short_from(i), s.short_to(i), s, i, cs + 1, x1);
    if x <= x1 <= x + 1 {
        assert(held_beside(s, i, x, x1));
    } else if x1 < x {
        lemma_turn_falls(s.low, s.high, s, i, x1, x);
        lemma_turn_falls(s.short_from(i), s.short_to(i), s, i, x1, x);
        lemma_turn_falls(s.low, s.high, s, i, x, cl);
        lemma_turn_falls(s.short_from(i), s.short_to(i), s, i, x, cs);
        assert(long_side(s, s.at(i, x)));
        assert(short_side(s, i, s.at(i, x)));
        lemma_two_edges_suffice(s, i, x);
        assert(held_beside(s, i, x, x));
    } else {
        lemma_turn_falls(s.low, s.high, s, i, x + 1, x1);
        lemma_turn_falls(s.short_from(i), s.short_to(i), s, i, x + 1, x1);
        lemma_turn_falls(s.low, s.high, s, i, cl + 1, x + 1);
        lemma_turn_falls(s.short_from(i), s.short_to(i), s, i, cs + 1, x + 1);
        assert(long_side(s, s.at(i, x + 1)));
        assert(short_side(s, i, s.at(i, x + 1)));
        lemma_two_edges_suffice(s, i, x + 1);
        assert(held_beside(s, i, x, x + 1));
    }
}

/// The corners of a triangle of the grid, put in order of height, are still the
/// corners of a triangle with an area, and hold the same points.
proof fn lemma_in_order(a: Vector3, b: Vector3, c: Vector3, width: int, height: int, p: Vector3)
    requires
        of_the_grid(a, b, c, width, height),
    ensures
        !flat(a, b, c),
        by_height(a, b, c).of_the_grid(),
        turn(by_height(a, b, c).low, by_height(a, b, c).mid, by_height(a, b, c).high) != 0,
        within_by(a, b, c, p, -1) == within_by(
            by_height(a, b, c).low,
            by_height(a, b, c).mid,
            by_height(a, b, c).high,
            p,
            -1,
        ),
{
    if flat(a, b, c) {
        assert((b.x - a.x) * (c.y - a.y) == 0 && (b.y - a.y) * (c.x - a.x) == 0)
            by (nonlinear_arith)
            requires
                c.y - a.y == 0,
                b.y - a.y == 0,
        ;
    }
    lemma_turn_moved(a, b, c);
    lemma_turn_moved(b, a, c);
    lemma_turn_moved(c, b, a);
    lemma_within_any_order(a, b, c, p, -1);
}

/// Whether the sweep paints the pixel in column `col` of row `y`, which is the
/// column `x` or the one before it.
pub open spec fn sweep_paints_beside(
    a: Vector3,
    b: Vector3,
    c: Vector3,
    width: int,
    height: int,
    x: int,
    y: int,
    col: int,
) -> bool {
    swept(a, b, c, width, height).contains((col, y)) && x - 1 <= col <= x
}

/// Whether the membership test paints the pixel in column `col` of row `y`,
/// which is the column `x` or the one after it.
pub open spec fn test_paints_beside(
    a: Vector3,
    b: Vector3,
    c: Vector3,
    width: int,
    height: int,
    x: int,
    y: int,
    col: int,
) -> bool {
    covered(a, b, c, width, height).contains((col, y)) && x <= col <= x + 1
}

/// The two fills agree up to one column, the one way round: of a triangle of the
/// grid, every pixel that the membership test paints is painted by the sweep, or
/// the pixel before it in its row is.
pub proof fn lemma_test_is_near_sweep(
    a: Vector3,
    b: Vector3,
    c: Vector3,
    width: int,
    height: int,
    x: int,
    y: int,
)
    requires
        of_the_grid(a, b, c, width, height),
        covered(a, b, c, width, height).contains((x, y)),
    ensures
        exists|col: int| #[trigger] sweep_paints_beside(a, b, c, width, height, x, y, col),
{
    let s = by_height(a, b, c);
    let p = center(x, y);
    lemma_covered_on_grid(a, b, c, width, height, x, y);
    lemma_in_order(a, b, c, width, height, p);
    lemma_within_is_between(a, b, c, p);
    let i = y - whole(s.low.y);
    lemma_rows(s, i, y);
    assert(p == s.at(i, x));
    lemma_held_is_swept_beside(s, i, x);
    let col = choose|col: int| #[trigger] swept_beside(s, i, x, col);
    s.lemma_columns(i);
    s.lemma_row_within(i);
    assert(s.paints(i, (col, y), width, height));
    assert(s.painted(width, height).contains((col, y)));
    assert(sweep_paints_beside(a, b, c, width, height, x, y, col));
}

/// The row of the canvas that a row of the sweep paints, for corners that are
/// centres of pixels.
proof fn lemma_rows(s: Sweep, i: int, y: int)
    requires
        s.of_the_grid(),
        i == y - whole(s.low.y),
    ensures
        s.at(i, 0).y == y * ONE,
        s.low.y <= y * ONE <= s.high.y ==> 0 <= i <= s.last(),
        s.row(i) == y,
{
    let total = s.high.y - s.low.y;
    let base = s.low.y / (ONE as int);
    let top = s.high.y / (ONE as int);
    assert(s.low.y == base * ONE && s.high.y == top * ONE) by (nonlinear_arith)
        requires
            s.low.y % (ONE as int) == 0,
            s.high.y % (ONE as int) == 0,
            base == s.low.y / (ONE as int),
            top == s.high.y / (ONE as int),
            ONE == 0x1_0000_0000,
    ;
    assert(s.low.y + i * ONE == y * ONE && total == (top - base) * ONE && (y * ONE) / (ONE as int)
        == y && ((top - base) * ONE) / (ONE as int) == top - base && (y * ONE) % (ONE as int) == 0)
        by (nonlinear_arith)
        requires
            i == y - base,
            s.low.y == base * ONE,
            s.high.y == top * ONE,
            total == s.high.y - s.low.y,
            ONE == 0x1_0000_0000,
    ;
    if s.low.y <= y * ONE <= s.high.y {
        assert(base <= y <= top) by (nonlinear_arith)
            requires
                base * ONE <= y * ONE <= top * ONE,
                ONE > 0,
        ;
    }
}

/// The two fills agree up to one column, the other way round: of a triangle of
/// the grid, every pixel that the sweep paints in a row in which the triangle
/// holds the centre of a pixel is painted by the membership test, or the pixel
/// after it in its row is. The pixel `(x1, y)` is one that the triangle holds in
/// the row.
pub proof fn lemma_sweep_is_near_test(
    a: Vector3,
    b: Vector3,
    c: Vector3,
    width: int,
    height: int,
    x: int,
    y: int,
    x1: int,
)
    requires
        of_the_grid(a, b, c, width, height),
        swept(a, b, c, width, height).contains((x, y)),
        covered(a, b, c, width, height).contains((x1, y)),
    ensures
        exists|col: int| #[trigger] test_paints_beside(a, b, c, width, height, x, y, col),
{
    let s = by_height(a, b, c);
    lemma_covered_on_grid(a, b, c, width, height, x1, y);
    lemma_in_order(a, b, c, width, height, center(x1, y));
    let i = choose|i: int| 0 <= i <= s.last() && #[trigger] s.paints(i, (x, y), width, height);
    s.lemma_columns(i);
    lemma_rows(s, y - whole(s.low.y), y);
    assert(s.at(i, 0).y == y * ONE) by (nonlinear_arith)
        requires
            s.row(i) * ONE == s.at(i, 0).y,
            s.row(i) == y,
    ;
    assert(center(x1, y) == s.at(i, x1));
    lemma_swept_is_held_beside(s, i, x, x1);
    let col = choose|col: int| #[trigger] held_beside(s, i, x, col);
    let q = center(col, y);
    assert(q == s.at(i, col));
    lemma_in_order(a, b, c, width, height, q);
    lemma_within_is_between(a, b, c, q);
    assert(0 <= col < width) by {
        assert(col * ONE >= 0 ==> col >= 0) by (nonlinear_arith)
            requires
                ONE > 0,
        ;
        let most = if a.x >= b.x && a.x >= c.x { a.x } else if b.x >= c.x { b.x } else { c.x };
        assert(0 <= col * ONE <= most);
        assert(col <= most / (ONE as int)) by (nonlinear_arith)
            requires
                0 <= col * ONE <= most,
                ONE == 0x1_0000_0000,
        ;
    }
    lemma_covered_on_grid(a, b, c, width, height, col, y);
    assert(test_paints_beside(a, b, c, width, height, x, y, col));
}

} // verus!
