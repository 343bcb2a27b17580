//! Fixed-point numbers.
//!
//! A coordinate is an `i64` that counts units of `1 / ONE`. Sums and differences
//! are the integer ones; products and quotients are scaled back by `ONE` and
//! rounded toward zero.

use vstd::prelude::*;

verus! {

/// The fixed-point number one.
pub const ONE: i64 = 0x1_0000_0000;

/// Whether `v` can be held in an `i64`.
pub open spec fn fits(v: int) -> bool {
    i64::MIN <= v <= i64::MAX
}

/// `a` divided by `b`, rounded toward zero.
pub open spec fn quotient(a: int, b: int) -> int
    recommends
        b != 0,
{
    if b > 0 {
        if a >= 0 {
            a / b
        } else {
            -((-a) / b)
        }
    } else {
        if a >= 0 {
            -(a / (-b))
        } else {
            (-a) / (-b)
        }
    }
}

/// The fixed-point product of `a` and `b`.
pub open spec fn product(a: int, b: int) -> int {
    quotient(a * b, ONE as int)
}

/// The fixed-point quotient of `a` and `b`.
pub open spec fn ratio(a: int, b: int) -> int
    recommends
        b != 0,
{
    quotient(a * ONE, b)
}

/// The whole part of `a`, rounded toward zero.
pub open spec fn whole(a: int) -> int {
    quotient(a, ONE as int)
}

/// Whether `r` is the square root of `n`, rounded down.
pub open spec fn is_root(n: int, r: int) -> bool {
    0 <= r && r * r <= n < (r + 1) * (r + 1)
}

/// The square root of `n`, rounded down.
pub open spec fn root(n: int) -> int
    recommends
        n >= 0,
{
    choose|r: int| is_root(n, r)
}

/// Two roots of one number are equal.
pub proof fn lemma_root_unique(n: int, r: int, s: int)
    requires
        is_root(n, r),
        is_root(n, s),
    ensures
        r == s,
{
    if r < s {
        assert((r + 1) * (r + 1) <= s * s) by (nonlinear_arith)
            requires
                0 <= r,
                r + 1 <= s,
        ;
    }
    if s < r {
        assert((s + 1) * (s + 1) <= r * r) by (nonlinear_arith)
            requires
                0 <= s,
                s + 1 <= r,
        ;
    }
}

/// A number that passes for the root of `n` is its root.
pub proof fn lemma_root_is(n: int, r: int)
    requires
        is_root(n, r),
    ensures
        root(n) == r,
{
    lemma_root_unique(n, r, root(n));
}

/// A quotient is no larger in magnitude than what was divided, and has its sign.
pub proof fn lemma_quotient_bounds(a: int, b: int)
    requires
        b != 0,
    ensures
        a >= 0 ==> -a <= quotient(a, b) <= a,
        a <= 0 ==> a <= quotient(a, b) <= -a,
        b > 0 && a >= 0 ==> 0 <= quotient(a, b),
        b > 0 && a <= 0 ==> quotient(a, b) <= 0,
{
    let m = if a >= 0 { a } else { -a };
    let d = if b > 0 { b } else { -b };
    assert(0 <= m / d <= m) by (nonlinear_arith)
        requires
            m >= 0,
            d > 0,
    ;
}

/// Dividing the negated number negates the quotient.
pub proof fn lemma_quotient_odd(a: int, b: int)
    requires
        b != 0,
    ensures
        quotient(-a, b) == -quotient(a, b),
{
    if a == 0 {
        assert(0int / b == 0) by (nonlinear_arith)
            requires
                b != 0,
        ;
        assert(0int / (-b) == 0) by (nonlinear_arith)
            requires
                b != 0,
        ;
    }
}

/// A product is bounded by the product of the bounds of its factors.
pub proof fn lemma_product_bounded(a: int, b: int, la: int, lb: int)
    requires
        -la <= a <= la,
        -lb <= b <= lb,
    ensures
        -((la * lb) / (ONE as int)) <= product(a, b) <= (la * lb) / (ONE as int),
{
    let m = if a * b >= 0 { a * b } else { -(a * b) };
    assert(-(la * lb) <= a * b <= la * lb) by (nonlinear_arith)
        requires
            -la <= a <= la,
            -lb <= b <= lb,
    ;
    assert(m / (ONE as int) <= (la * lb) / (ONE as int));
}

/// The product of a number and a part, between nothing and the whole, lies
/// between zero and the number.
pub proof fn lemma_product_part(d: int, t: int)
    requires
        0 <= t <= ONE,
    ensures
        d >= 0 ==> 0 <= product(d, t) <= d,
        d <= 0 ==> d <= product(d, t) <= 0,
{
    let m = if d >= 0 { d } else { -d };
    assert(0 <= m * t <= m * ONE) by (nonlinear_arith)
        requires
            0 <= m,
            0 <= t <= ONE,
    ;
    assert((-d) * t == -(d * t)) by (nonlinear_arith);
    assert((m * ONE) / (ONE as int) == m) by (nonlinear_arith)
        requires
            ONE == 0x1_0000_0000,
    ;
    assert((m * t) / (ONE as int) <= (m * ONE) / (ONE as int));
}

/// Negating a factor negates the product.
pub proof fn lemma_product_odd(a: int, b: int)
    ensures
        product(-a, b) == -product(a, b),
        product(a, -b) == -product(a, b),
        product(-a, -b) == product(a, b),
{
    assert((-a) * b == -(a * b)) by (nonlinear_arith);
    assert(a * (-b) == -(a * b)) by (nonlinear_arith);
    assert((-a) * (-b) == a * b) by (nonlinear_arith);
    lemma_quotient_odd(a * b, ONE as int);
}

/// A product with zero is zero.
pub proof fn lemma_product_zero(a: int)
    ensures
        product(a, 0) == 0,
        product(0, a) == 0,
{
    assert(a * 0 == 0) by (nonlinear_arith);
    assert(0 * a == 0) by (nonlinear_arith);
}

/// Dividing by a number of magnitude at least one does not enlarge.
pub proof fn lemma_ratio_shrinks(a: int, b: int)
    requires
        b >= ONE || b <= -ONE,
    ensures
        a >= 0 ==> -a <= ratio(a, b) <= a,
        a <= 0 ==> a <= ratio(a, b) <= -a,
        b > 0 && a >= 0 ==> 0 <= ratio(a, b),
        b > 0 && a <= 0 ==> ratio(a, b) <= 0,
        b < 0 && a >= 0 ==> ratio(a, b) <= 0,
        b < 0 && a <= 0 ==> 0 <= ratio(a, b),
{
    let m = if a >= 0 { a } else { -a };
    let d = if b > 0 { b } else { -b };
    assert(0 <= (m * ONE) / d <= m) by (nonlinear_arith)
        requires
            m >= 0,
            d >= ONE,
            ONE > 0,
    ;
    assert(-(a * ONE) == (-a) * ONE) by (nonlinear_arith);
    assert(a >= 0 ==> a * ONE >= 0) by (nonlinear_arith);
    assert(a < 0 ==> a * ONE < 0) by (nonlinear_arith);
}

/// The fixed-point quotient of a number by one that is at least as large in
/// magnitude lies between minus one and one.
pub proof fn lemma_ratio_bounded(c: int, len: int)
    requires
        0 < len,
        -len <= c <= len,
    ensures
        -ONE <= ratio(c, len) <= ONE,
{
    let m = if c >= 0 { c } else { -c };
    assert(m * ONE <= len * ONE) by (nonlinear_arith)
        requires
            0 <= m <= len,
    ;
    assert((m * ONE) / len <= ONE) by (nonlinear_arith)
        requires
            0 <= m * ONE <= len * ONE,
            0 < len,
    ;
    assert(0 <= (m * ONE) / len) by (nonlinear_arith)
        requires
            0 <= m * ONE,
            0 < len,
    ;
    assert(-(c * ONE) == (-c) * ONE) by (nonlinear_arith);
    assert(c >= 0 ==> c * ONE >= 0) by (nonlinear_arith);
    assert(c < 0 ==> c * ONE < 0) by (nonlinear_arith);
}

/// A product with one is the number itself.
pub proof fn lemma_product_one(a: int)
    ensures
        product(a, ONE as int) == a,
{
    let m = if a >= 0 { a } else { -a };
    assert((m * ONE) / (ONE as int) == m) by (nonlinear_arith)
        requires
            ONE == 0x1_0000_0000,
    ;
    assert((-a) * ONE == -(a * ONE)) by (nonlinear_arith);
    assert(a >= 0 ==> a * ONE >= 0) by (nonlinear_arith);
    assert(a < 0 ==> a * ONE < 0) by (nonlinear_arith);
}

/// Zero divided by anything is zero, and a number divided by itself is one.
pub proof fn lemma_ratio_basics(b: int)
    requires
        b != 0,
    ensures
        ratio(0, b) == 0,
        ratio(b, b) == ONE,
{
    let d = if b > 0 { b } else { -b };
    assert(0 * ONE == 0) by (nonlinear_arith);
    assert(0int / d == 0) by (nonlinear_arith)
        requires
            d > 0,
    ;
    assert((d * ONE) / d == ONE) by (nonlinear_arith)
        requires
            d > 0,
    ;
    assert(-(b * ONE) == (-b) * ONE) by (nonlinear_arith);
    assert(b > 0 ==> b * ONE > 0) by (nonlinear_arith);
    assert(b < 0 ==> b * ONE < 0) by (nonlinear_arith);
}

/// The fixed-point product of `a` and `b`, which always fits in 128 bits.
pub fn multiply_wide(a: i64, b: i64) -> (p: i128)
    ensures
        p == product(a as int, b as int),
        -0x4000_0000_0000_0000_0000_0000 <= p <= 0x4000_0000_0000_0000_0000_0000,
{
    proof {
        assert(-0x8000_0000_0000_0000 * 0x8000_0000_0000_0000 <= a * b
            <= 0x8000_0000_0000_0000 * 0x8000_0000_0000_0000) by (nonlinear_arith)
            requires
                -0x8000_0000_0000_0000 <= a < 0x8000_0000_0000_0000,
                -0x8000_0000_0000_0000 <= b < 0x8000_0000_0000_0000,
        ;
    }
    let wide: i128 = (a as i128) * (b as i128);
    wide / (ONE as i128)
}

/// The fixed-point product of `a` and `b`, which must be within the range of
/// `i64`.
pub fn multiply(a: i64, b: i64) -> (p: i64)
    requires
        fits(product(a as int, b as int)),
    ensures
        p == product(a as int, b as int),
{
    multiply_wide(a, b) as i64
}

/// The fixed-point quotient of `a` and `b`, which always fits in 128 bits.
pub fn divide_wide(a: i64, b: i64) -> (q: i128)
    requires
        b != 0,
    ensures
        q == ratio(a as int, b as int),
        -0x8000_0000_0000_0000_0000_0000 <= q <= 0x8000_0000_0000_0000_0000_0000,
{
    proof {
        lemma_quotient_bounds(a * ONE, b as int);
    }
    let wide: i128 = (a as i128) * (ONE as i128);
    if b > 0 {
        wide / (b as i128)
    } else {
        (-wide) / (-(b as i128))
    }
}

/// The fixed-point quotient of `a` and `b`, which must be within the range of
/// `i64`. The divisor `b` is not zero.
pub fn divide(a: i64, b: i64) -> (q: i64)
    requires
        b != 0,
        fits(ratio(a as int, b as int)),
    ensures
        q == ratio(a as int, b as int),
{
    divide_wide(a, b) as i64
}

/// The square root of `n`, rounded down.
pub fn isqrt(n: u128) -> (r: u64)
    ensures
        r == root(n as int),
        is_root(n as int, r as int),
{
    let mut low: u128 = 0;
    let mut high: u128 = 0x1_0000_0000_0000_0000;
    proof {
        assert(0x1_0000_0000_0000_0000 * 0x1_0000_0000_0000_0000 > n) by (nonlinear_arith)
            requires
                n <= 0xffff_ffff_ffff_ffff_ffff_ffff_ffff_ffff,
        ;
    }
    while high - low > 1
        invariant
            low < high <= 0x1_0000_0000_0000_0000,
            low * low <= n < high * high,
        decreases high - low,
    {
        let middle: u128 = low + (high - low) / 2;
        proof {
            assert(middle * middle <= 0xffff_ffff_ffff_ffff * 0xffff_ffff_ffff_ffff)
                by (nonlinear_arith)
                requires
                    0 <= middle <= 0xffff_ffff_ffff_ffff,
            ;
        }
        if middle * middle <= n {
            low = middle;
        } else {
            high = middle;
        }
    }
    proof {
        lemma_root_is(n as int, low as int);
    }
    low as u64
}

} // verus!
