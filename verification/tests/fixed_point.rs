use tiny_renderer::geometry::fixed::{divide, divide_wide, isqrt, multiply, multiply_wide, ONE};

#[test]
fn one_is_two_to_the_thirty_second() {
    assert_eq!(ONE, 4_294_967_296);
}

#[test]
fn multiply_scales_back() {
    assert_eq!(multiply(3 * ONE, 2 * ONE), 6 * ONE);
    assert_eq!(multiply(ONE / 2, ONE / 2), ONE / 4);
    assert_eq!(multiply(-3 * ONE, 2 * ONE), -6 * ONE);
    assert_eq!(multiply(7 * ONE, 0), 0);
}

#[test]
fn multiply_rounds_toward_zero() {
    assert_eq!(multiply(1, 1), 0);
    assert_eq!(multiply(-1, 1), 0);
    assert_eq!(multiply(ONE + 1, ONE / 2), ONE / 2);
    assert_eq!(multiply(-(ONE + 1), ONE / 2), -(ONE / 2));
}

#[test]
fn multiply_wide_holds_what_i64_cannot() {
    let wide = multiply_wide(i64::MAX, i64::MAX);
    let expected = (i64::MAX as i128) * (i64::MAX as i128) / (ONE as i128);
    assert_eq!(wide, expected);
    assert_eq!(multiply_wide(i64::MIN, i64::MAX), -((1i128 << 63) * (i64::MAX as i128) / (ONE as i128)));
}

#[test]
fn divide_scales_up() {
    assert_eq!(divide(6 * ONE, 2 * ONE), 3 * ONE);
    assert_eq!(divide(ONE, 2 * ONE), ONE / 2);
    assert_eq!(divide(ONE, 3 * ONE), 1_431_655_765);
    assert_eq!(divide(3 * ONE, 5 * ONE), 2_576_980_377);
}

#[test]
fn divide_rounds_toward_zero_for_every_sign() {
    assert_eq!(divide(-ONE, 3 * ONE), -1_431_655_765);
    assert_eq!(divide(ONE, -3 * ONE), -1_431_655_765);
    assert_eq!(divide(-ONE, -3 * ONE), 1_431_655_765);
    assert_eq!(divide(0, -5), 0);
}

#[test]
fn divide_wide_holds_what_i64_cannot() {
    assert_eq!(divide_wide(i64::MAX, 1), (i64::MAX as i128) * (ONE as i128));
    assert_eq!(divide_wide(i64::MIN, -1), (1i128 << 63) * (ONE as i128));
}

#[test]
fn isqrt_rounds_down() {
    assert_eq!(isqrt(0), 0);
    assert_eq!(isqrt(1), 1);
    assert_eq!(isqrt(3), 1);
    assert_eq!(isqrt(4), 2);
    assert_eq!(isqrt(24), 4);
    assert_eq!(isqrt(25), 5);
    assert_eq!(isqrt(26), 5);
    assert_eq!(isqrt(1 << 64), 1 << 32);
}

#[test]
fn isqrt_of_the_largest_number() {
    assert_eq!(isqrt(u128::MAX), u64::MAX);
    assert_eq!(isqrt((u64::MAX as u128) * (u64::MAX as u128)), u64::MAX);
    assert_eq!(isqrt((u64::MAX as u128) * (u64::MAX as u128) - 1), u64::MAX - 1);
}
