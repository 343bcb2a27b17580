use tiny_renderer::geometry::fixed::ONE;
use tiny_renderer::geometry::ops::{
    barycentric, cross_product, dot_product, normalize, GeometryError, COORD_MAX,
};
use tiny_renderer::geometry::types::{Face, Vec3f};

fn v(x: i64, y: i64, z: i64) -> Vec3f {
    Vec3f([x * ONE, y * ONE, z * ONE])
}

#[test]
fn components_by_name_and_by_index() {
    let a = Vec3f([1, 2, 3]);
    assert_eq!(a.x(), 1);
    assert_eq!(a.y(), 2);
    assert_eq!(a.z(), 3);
    assert_eq!(a[0], 1);
    assert_eq!(a[1], 2);
    assert_eq!(a[2], 3);
}

#[test]
fn iter_gives_the_three_components_in_order() {
    let a = Vec3f([7, -8, 9]);
    let seen: Vec<i64> = a.iter().copied().collect();
    assert_eq!(seen, vec![7, -8, 9]);
}

#[test]
fn is_within_tests_every_component() {
    assert!(Vec3f([5, -5, 0]).is_within(5));
    assert!(!Vec3f([6, 0, 0]).is_within(5));
    assert!(!Vec3f([0, -6, 0]).is_within(5));
    assert!(!Vec3f([0, 0, 6]).is_within(5));
    assert!(!Vec3f([0, 0, 0]).is_within(-1));
    assert!(Vec3f([0, 0, 0]).is_within(0));
}

#[test]
fn is_flat_within_leaves_the_third_component_out() {
    assert!(Vec3f([5, -5, 999]).is_flat_within(5));
    assert!(!Vec3f([6, 0, 0]).is_flat_within(5));
    assert!(!Vec3f([0, -6, 0]).is_flat_within(5));
    assert!(!Vec3f([0, 0, 0]).is_flat_within(-1));
}

#[test]
fn barycentric_takes_any_third_component() {
    let a = Vec3f([0, 0, i64::MAX]);
    let b = Vec3f([4 * ONE, 0, i64::MIN]);
    let c = Vec3f([0, 4 * ONE, 7]);
    assert_eq!(
        barycentric(vec![&a, &b, &c], &Vec3f([ONE, ONE, i64::MIN])),
        Vec3f([ONE / 2, ONE / 4, ONE / 4])
    );
}

#[test]
fn sum_and_difference() {
    let a = Vec3f([1, 2, 3]);
    let b = Vec3f([10, 20, 30]);
    assert_eq!(a + b, Vec3f([11, 22, 33]));
    assert_eq!(b - a, Vec3f([9, 18, 27]));
    assert_eq!(a - b, Vec3f([-9, -18, -27]));
}

#[test]
fn a_number_taken_from_each_component() {
    assert_eq!(Vec3f([10, 20, 30]) - 4, Vec3f([6, 16, 26]));
}

#[test]
fn scaling_by_a_fixed_point_number() {
    assert_eq!(v(1, -2, 3) * (2 * ONE), v(2, -4, 6));
    assert_eq!(v(1, -2, 3) * (ONE / 2), Vec3f([ONE / 2, -ONE, 3 * ONE / 2]));
    assert_eq!(v(4, 8, -12) / (4 * ONE), v(1, 2, -3));
    assert_eq!(v(3, -3, 0) / (5 * ONE), Vec3f([2_576_980_377, -2_576_980_377, 0]));
}

#[test]
fn cross_product_of_the_axes() {
    assert_eq!(cross_product(v(1, 0, 0), v(0, 1, 0)), v(0, 0, 1));
    assert_eq!(cross_product(v(0, 1, 0), v(0, 0, 1)), v(1, 0, 0));
    assert_eq!(cross_product(v(0, 0, 1), v(1, 0, 0)), v(0, 1, 0));
    assert_eq!(cross_product(v(0, 1, 0), v(1, 0, 0)), v(0, 0, -1));
}

#[test]
fn cross_product_by_the_formula() {
    assert_eq!(cross_product(v(1, 2, 3), v(4, 5, 6)), v(-3, 6, -3));
    assert_eq!(cross_product(v(2, 4, 6), v(1, 2, 3)), v(0, 0, 0));
}

#[test]
fn dot_product_by_the_formula() {
    assert_eq!(dot_product(v(1, 2, 3), v(4, 5, 6)), 32 * ONE);
    assert_eq!(dot_product(v(1, 0, 0), v(0, 1, 0)), 0);
    assert_eq!(dot_product(v(0, 0, -1), v(0, 0, 1)), -ONE);
}

#[test]
fn normalize_refuses_the_zero_vector() {
    assert_eq!(normalize(Vec3f([0, 0, 0])), Err(GeometryError::DivisionByZero));
}

#[test]
fn normalize_gives_length_one() {
    assert_eq!(normalize(v(0, 0, -7)), Ok(v(0, 0, -1)));
    assert_eq!(normalize(v(3, 4, 0)), Ok(Vec3f([2_576_980_377, 3_435_973_836, 0])));
    assert_eq!(normalize(Vec3f([0, 1, 0])), Ok(v(0, 1, 0)));
}

#[test]
fn normalize_takes_the_largest_vectors() {
    let n = normalize(Vec3f([i64::MAX, i64::MIN, i64::MAX])).unwrap();
    assert!(n.is_within(ONE));
    assert!(n.x() > ONE / 2 && n.y() < -ONE / 2 && n.z() > ONE / 2);
}

#[test]
fn barycentric_of_each_corner_is_a_basis_vector() {
    let a = v(10, 10, 0);
    let b = v(100, 30, 0);
    let c = v(190, 160, 0);
    assert_eq!(barycentric(vec![&a, &b, &c], &a), v(1, 0, 0));
    assert_eq!(barycentric(vec![&a, &b, &c], &b), v(0, 1, 0));
    assert_eq!(barycentric(vec![&a, &b, &c], &c), v(0, 0, 1));
}

#[test]
fn barycentric_of_corners_with_fractions() {
    let a = Vec3f([ONE / 3, 7 * ONE + 5, 0]);
    let b = Vec3f([-9 * ONE - 1, 2 * ONE + 77, 0]);
    let c = Vec3f([4 * ONE + 123, -6 * ONE - 3, 0]);
    assert_eq!(barycentric(vec![&a, &b, &c], &a), v(1, 0, 0));
    assert_eq!(barycentric(vec![&a, &b, &c], &b), v(0, 1, 0));
    assert_eq!(barycentric(vec![&a, &b, &c], &c), v(0, 0, 1));
}

#[test]
fn barycentric_inside_on_the_edge_and_outside() {
    let a = v(0, 0, 0);
    let b = v(4, 0, 0);
    let c = v(0, 4, 0);
    assert_eq!(
        barycentric(vec![&a, &b, &c], &v(1, 1, 0)),
        Vec3f([ONE / 2, ONE / 4, ONE / 4])
    );
    assert_eq!(barycentric(vec![&a, &b, &c], &v(2, 2, 0)), Vec3f([0, ONE / 2, ONE / 2]));
    let outside = barycentric(vec![&a, &b, &c], &v(5, 0, 0));
    assert!(outside.x() < 0);
    assert_eq!(outside.x() + outside.y() + outside.z(), ONE);
}

#[test]
fn barycentric_ignores_the_third_component() {
    let a = v(0, 0, 5);
    let b = v(4, 0, -3);
    let c = v(0, 4, 9);
    assert_eq!(
        barycentric(vec![&a, &b, &c], &v(1, 1, 100)),
        Vec3f([ONE / 2, ONE / 4, ONE / 4])
    );
}

#[test]
fn barycentric_of_a_degenerate_triangle_is_outside() {
    let a = v(1, 1, 0);
    let b = v(2, 2, 0);
    let c = v(3, 3, 0);
    assert_eq!(barycentric(vec![&a, &b, &c], &v(2, 2, 0)), v(-1, 1, 1));
    assert_eq!(barycentric(vec![&a, &a, &a], &a), v(-1, 1, 1));
    let thin = Vec3f([5 * ONE, ONE / 20, 0]);
    assert_eq!(barycentric(vec![&v(0, 0, 0), &v(10, 0, 0), &thin], &v(5, 0, 0)), v(-1, 1, 1));
}

#[test]
fn barycentric_at_the_limit_of_the_coordinates() {
    let a = Vec3f([-COORD_MAX, -COORD_MAX, 0]);
    let b = Vec3f([COORD_MAX, -COORD_MAX, 0]);
    let c = Vec3f([-COORD_MAX, COORD_MAX, 0]);
    assert_eq!(barycentric(vec![&a, &b, &c], &a), v(1, 0, 0));
    assert_eq!(barycentric(vec![&a, &b, &c], &Vec3f([0, 0, 0])), Vec3f([0, ONE / 2, ONE / 2]));
    let far = barycentric(vec![&a, &b, &c], &Vec3f([COORD_MAX, COORD_MAX, 0]));
    assert_eq!(far, v(-1, 1, 1));
}

#[test]
fn face_counts_its_vertices_from_one() {
    let face = Face([1, 5, 9]);
    assert_eq!(face.get_vertex_index(0), 0);
    assert_eq!(face.get_vertex_index(1), 4);
    assert_eq!(face.get_vertex_index(2), 8);
}
