use tiny_renderer::geometry::fixed::ONE;
use tiny_renderer::geometry::types::Vec3f;
use tiny_renderer::render::canvas::{Canvas, Rgb, RgbCanvas, Rgba, RgbaCanvas};
use tiny_renderer::render::{old_triangle, triangle, triangle_with_gamma};

const RED: Rgb = Rgb([255, 0, 0]);
const BLACK: Rgb = Rgb([0, 0, 0]);

fn at(x: i64, y: i64) -> Vec3f {
    Vec3f([x * ONE, y * ONE, 0])
}

fn quarters(x: i64, y: i64) -> Vec3f {
    Vec3f([x * (ONE / 4), y * (ONE / 4), 0])
}

fn painted(image: &RgbCanvas) -> Vec<(u32, u32)> {
    let mut found = Vec::new();
    for x in 0..image.width() {
        for y in 0..image.height() {
            if image.get_pixel(x, y) != BLACK {
                found.push((x, y));
            }
        }
    }
    found
}

fn filled(a: Vec3f, b: Vec3f, c: Vec3f, width: u32, height: u32) -> Vec<(u32, u32)> {
    let mut image = RgbCanvas::new(width, height);
    triangle(&a, &b, &c, &mut image, RED);
    painted(&image)
}

fn swept(a: Vec3f, b: Vec3f, c: Vec3f, width: u32, height: u32) -> Vec<(u32, u32)> {
    let (mut a, mut b, mut c) = (a, b, c);
    let mut image = RgbCanvas::new(width, height);
    old_triangle(&mut a, &mut b, &mut c, &mut image, RED);
    painted(&image)
}

fn near(p: (u32, u32), set: &[(u32, u32)]) -> bool {
    set.iter().any(|&(x, y)| {
        (x as i64 - p.0 as i64).abs() <= 1 && (y as i64 - p.1 as i64).abs() <= 1
    })
}

#[test]
fn triangle_paints_corners_and_centroid() {
    let mut image = RgbCanvas::new(200, 200);
    triangle(&at(10, 10), &at(100, 30), &at(190, 160), &mut image, RED);
    assert_eq!(image.get_pixel(10, 10), RED);
    assert_eq!(image.get_pixel(100, 30), RED);
    assert_eq!(image.get_pixel(190, 160), RED);
    assert_eq!(image.get_pixel(100, 67), RED);
    assert_eq!(image.get_pixel(0, 0), BLACK);
    assert_eq!(painted(&image).len(), 4976);
}

#[test]
fn triangle_paints_exactly_its_pixels() {
    assert_eq!(
        filled(at(1, 1), at(5, 1), at(1, 5), 8, 8),
        vec![
            (1, 1), (1, 2), (1, 3), (1, 4), (1, 5), (2, 1), (2, 2), (2, 3), (2, 4), (3, 1),
            (3, 2), (3, 3), (4, 1), (4, 2), (5, 1)
        ]
    );
}

#[test]
fn triangle_is_the_same_for_every_order_of_its_corners() {
    let expected = filled(at(1, 1), at(5, 1), at(1, 5), 8, 8);
    assert_eq!(filled(at(5, 1), at(1, 5), at(1, 1), 8, 8), expected);
    assert_eq!(filled(at(1, 5), at(1, 1), at(5, 1), 8, 8), expected);
    assert_eq!(filled(at(1, 5), at(5, 1), at(1, 1), 8, 8), expected);
}

#[test]
fn triangle_with_corners_between_pixels() {
    assert_eq!(
        filled(quarters(2, 2), quarters(14, 5), quarters(7, 14), 8, 8),
        vec![(1, 1), (2, 1), (2, 2), (2, 3)]
    );
}

#[test]
fn triangle_is_cut_down_to_the_canvas() {
    assert_eq!(filled(at(-3, -3), at(4, -3), at(-3, 4), 3, 3), vec![(0, 0), (0, 1), (1, 0)]);
    assert_eq!(filled(at(-50, -50), at(100, -50), at(-50, 100), 2, 2).len(), 4);
}

#[test]
fn triangle_off_the_canvas_paints_nothing() {
    assert_eq!(filled(at(20, 20), at(30, 20), at(20, 30), 8, 8), vec![]);
    assert_eq!(filled(at(-20, -20), at(-5, -20), at(-20, -5), 8, 8), vec![]);
}

#[test]
fn triangle_on_an_empty_canvas_paints_nothing() {
    assert_eq!(filled(at(0, 0), at(5, 0), at(0, 5), 0, 0), vec![]);
    assert_eq!(filled(at(0, 0), at(5, 0), at(0, 5), 4, 0), vec![]);
    assert_eq!(filled(at(0, 0), at(5, 0), at(0, 5), 0, 4), vec![]);
}

#[test]
fn degenerate_triangle_paints_nothing() {
    assert_eq!(filled(at(1, 1), at(3, 3), at(6, 6), 8, 8), vec![]);
    assert_eq!(filled(at(2, 2), at(2, 2), at(2, 2), 8, 8), vec![]);
    let thin = Vec3f([5 * ONE, ONE / 20, 0]);
    assert_eq!(filled(at(0, 0), at(10, 0), thin, 12, 12), vec![]);
}

#[test]
fn triangle_with_gamma_paints_the_same_pixels_with_opacity() {
    let mut image = RgbaCanvas::new(8, 8);
    let colour = Rgba([10, 20, 30, 40]);
    triangle_with_gamma(&at(1, 1), &at(5, 1), &at(1, 5), &mut image, colour);
    let expected = filled(at(1, 1), at(5, 1), at(1, 5), 8, 8);
    for x in 0..8 {
        for y in 0..8 {
            let inside = expected.contains(&(x, y));
            assert_eq!(image.get_pixel(x, y), if inside { colour } else { Rgba([0, 0, 0, 0]) });
        }
    }
}

#[test]
fn a_later_triangle_covers_an_earlier_one() {
    let mut image = RgbCanvas::new(8, 8);
    triangle(&at(0, 0), &at(6, 0), &at(0, 6), &mut image, RED);
    triangle(&at(0, 0), &at(3, 0), &at(0, 3), &mut image, Rgb([0, 0, 255]));
    assert_eq!(image.get_pixel(1, 1), Rgb([0, 0, 255]));
    assert_eq!(image.get_pixel(3, 3), RED);
    assert_eq!(image.get_pixel(7, 7), BLACK);
}

#[test]
fn two_triangles_with_a_shared_edge_both_paint_it() {
    let left = filled(at(0, 0), at(4, 4), at(0, 4), 8, 8);
    let right = filled(at(0, 0), at(4, 0), at(4, 4), 8, 8);
    for i in 0..=4 {
        assert!(left.contains(&(i, i)));
        assert!(right.contains(&(i, i)));
    }
}

#[test]
fn sweep_paints_exactly_its_pixels() {
    assert_eq!(
        swept(at(1, 1), at(5, 1), at(1, 5), 8, 8),
        vec![
            (1, 1), (1, 2), (1, 3), (1, 4), (1, 5), (2, 1), (2, 2), (2, 3), (2, 4), (3, 1),
            (3, 2), (3, 3), (4, 1), (4, 2), (5, 1)
        ]
    );
    assert_eq!(
        swept(at(3, 0), at(0, 3), at(6, 3), 8, 8),
        vec![
            (0, 3), (1, 2), (1, 3), (2, 1), (2, 2), (2, 3), (3, 0), (3, 1), (3, 2), (3, 3),
            (4, 2), (4, 3), (5, 3), (6, 3)
        ]
    );
}

#[test]
fn sweep_with_corners_between_pixels() {
    assert_eq!(
        swept(quarters(2, 2), quarters(14, 5), quarters(7, 14), 8, 8),
        vec![(0, 0), (0, 1), (1, 1), (1, 2), (1, 3), (2, 1), (2, 2), (3, 1)]
    );
}

#[test]
fn sweep_of_corners_at_one_height_paints_nothing() {
    assert_eq!(swept(at(1, 3), at(5, 3), at(7, 3), 8, 8), vec![]);
    assert_eq!(swept(at(2, 2), at(2, 2), at(2, 2), 8, 8), vec![]);
}

#[test]
fn sweep_is_cut_down_to_the_canvas() {
    assert_eq!(
        swept(at(-3, -3), at(4, -3), at(-3, 4), 3, 3),
        vec![(0, 0), (0, 1), (0, 2), (1, 0)]
    );
    assert_eq!(swept(at(20, 20), at(30, 20), at(20, 30), 8, 8), vec![]);
    assert_eq!(swept(at(-20, -20), at(-5, -20), at(-20, -5), 8, 8), vec![]);
    assert_eq!(swept(at(0, 0), at(5, 0), at(0, 5), 0, 0), vec![]);
}

#[test]
fn sweep_leaves_the_corners_in_order_of_height() {
    let mut a = at(190, 160);
    let mut b = at(10, 10);
    let mut c = at(100, 30);
    let mut image = RgbCanvas::new(200, 200);
    old_triangle(&mut a, &mut b, &mut c, &mut image, RED);
    assert_eq!(a, at(10, 10));
    assert_eq!(b, at(100, 30));
    assert_eq!(c, at(190, 160));
}

#[test]
fn sweep_leaves_corners_at_one_height_where_they_are() {
    let mut a = at(9, 3);
    let mut b = at(1, 3);
    let mut c = at(5, 3);
    let mut image = RgbCanvas::new(10, 10);
    old_triangle(&mut a, &mut b, &mut c, &mut image, RED);
    assert_eq!((a, b, c), (at(9, 3), at(1, 3), at(5, 3)));
}

#[test]
fn both_fills_agree_up_to_one_pixel() {
    let triangles = [
        (at(10, 10), at(100, 30), at(190, 160)),
        (at(5, 5), at(40, 8), at(20, 35)),
        (at(0, 0), at(30, 0), at(0, 30)),
        (at(3, 28), at(25, 2), at(29, 27)),
    ];
    for &(a, b, c) in &triangles {
        let by_test = filled(a, b, c, 200, 200);
        let by_sweep = swept(a, b, c, 200, 200);
        assert!(!by_test.is_empty());
        for &p in &by_test {
            assert!(near(p, &by_sweep));
        }
        for &p in &by_sweep {
            assert!(near(p, &by_test));
        }
    }
}

#[test]
fn both_fills_agree_on_a_triangle_along_the_axes() {
    assert_eq!(
        filled(at(0, 0), at(30, 0), at(0, 30), 40, 40),
        swept(at(0, 0), at(30, 0), at(0, 30), 40, 40)
    );
}

#[test]
fn sweep_stays_in_the_box_that_the_test_scans() {
    let by_sweep = swept(quarters(9, 7), quarters(61, 18), quarters(30, 50), 20, 20);
    assert!(!by_sweep.is_empty());
    for &(x, y) in &by_sweep {
        assert!(2 <= x && x <= 15);
        assert!(1 <= y && y <= 12);
    }
}

fn turn(p: (i128, i128), q: (i128, i128), r: (i128, i128)) -> i128 {
    (q.0 - p.0) * (r.1 - p.1) - (q.1 - p.1) * (r.0 - p.0)
}

fn sides(a: Vec3f, b: Vec3f, c: Vec3f, x: u32, y: u32) -> (i128, [i128; 3]) {
    let flat = |v: Vec3f| (v.x() as i128, v.y() as i128);
    let (a, b, c) = (flat(a), flat(b), flat(c));
    let p = (x as i128 * ONE as i128, y as i128 * ONE as i128);
    let whole = turn(a, b, c);
    let sign = if whole > 0 { 1 } else { -1 };
    (whole.abs(), [sign * turn(a, b, p), sign * turn(b, c, p), sign * turn(c, a, p)])
}

#[test]
fn a_painted_pixel_is_inside_the_triangle_but_for_a_hair() {
    let (a, b, c) = (quarters(9, 7), quarters(61, 18), quarters(30, 50));
    let painted = filled(a, b, c, 20, 20);
    assert!(!painted.is_empty());
    for &(x, y) in &painted {
        let (whole, each) = sides(a, b, c, x, y);
        let hair = 10 * (whole / ONE as i128 + 1);
        assert!(each.iter().all(|&t| t > -hair));
    }
}

#[test]
fn a_pixel_well_inside_the_triangle_is_painted() {
    let (a, b, c) = (quarters(9, 7), quarters(61, 18), quarters(30, 50));
    let painted = filled(a, b, c, 20, 20);
    let mut inside = 0;
    for x in 0..20 {
        for y in 0..20 {
            let (_, each) = sides(a, b, c, x, y);
            if each.iter().all(|&t| t > 6 * ONE as i128) {
                assert!(painted.contains(&(x, y)));
                inside += 1;
            }
        }
    }
    assert_eq!(inside, painted.len());
}

#[test]
fn a_thin_triangle_is_swept_though_the_test_finds_nothing_in_it() {
    let thin = Vec3f([5 * ONE, ONE / 20, 0]);
    assert_eq!(filled(at(0, 0), at(10, 0), thin, 12, 12), vec![]);
    let row: Vec<(u32, u32)> = (0..=10).map(|x| (x, 0)).collect();
    assert_eq!(swept(at(0, 0), at(10, 0), thin, 12, 12), row);
}

#[test]
fn both_fills_paint_the_three_corners() {
    let triangles = [
        (at(10, 10), at(100, 30), at(190, 160)),
        (at(5, 5), at(40, 8), at(20, 35)),
        (at(3, 28), at(25, 2), at(29, 27)),
        (at(0, 0), at(199, 0), at(0, 199)),
        (at(7, 7), at(7, 90), at(90, 7)),
        (at(50, 10), at(10, 10), at(30, 60)),
    ];
    for &(a, b, c) in &triangles {
        let by_test = filled(a, b, c, 200, 200);
        let by_sweep = swept(a, b, c, 200, 200);
        for v in [a, b, c] {
            let pixel = ((v.x() / ONE) as u32, (v.y() / ONE) as u32);
            assert!(by_test.contains(&pixel));
            assert!(by_sweep.contains(&pixel));
        }
    }
}

#[test]
fn the_sweep_paints_in_every_row_that_the_test_scans() {
    let (a, b, c) = (at(10, 10), at(100, 30), at(190, 160));
    let by_sweep = swept(a, b, c, 200, 200);
    for y in 10..=160 {
        assert!(by_sweep.iter().any(|&(_, row)| row == y));
    }
    assert!(by_sweep.iter().all(|&(_, row)| 10 <= row && row <= 160));
}

#[test]
fn the_weights_give_the_point_back() {
    let (a, b, c) = (quarters(9, 7), quarters(61, 18), quarters(30, 50));
    for x in 0..20i64 {
        for y in 0..20i64 {
            let p = at(x, y);
            let w = tiny_renderer::geometry::ops::barycentric(vec![&a, &b, &c], &p);
            let back = |k: usize| {
                w.x() as i128 * a[k] as i128 + w.y() as i128 * b[k] as i128
                    + w.z() as i128 * c[k] as i128
                    - ONE as i128 * p[k] as i128
            };
            let reach = |k: usize| {
                3 * ((c[k] - a[k]).abs() + (b[k] - a[k]).abs() + (a[k] - p[k]).abs()) as i128
            };
            assert!(back(0).abs() <= reach(0));
            assert!(back(1).abs() <= reach(1));
        }
    }
}

fn grid_triangles() -> Vec<(Vec3f, Vec3f, Vec3f)> {
    let mut found = Vec::new();
    let mut seed: u64 = 12345;
    let mut next = move || {
        seed = seed.wrapping_mul(6364136223846793005).wrapping_add(1442695040888963407);
        ((seed >> 33) % 40) as i64
    };
    while found.len() < 60 {
        let (ax, ay, bx, by, cx, cy) = (next(), next(), next(), next(), next(), next());
        if (bx - ax) * (cy - ay) - (by - ay) * (cx - ax) != 0 {
            found.push((at(ax, ay), at(bx, by), at(cx, cy)));
        }
    }
    found.push((at(0, 0), at(39, 1), at(0, 39)));
    found.push((at(0, 0), at(3, 3), at(0, 3)));
    found.push((at(0, 0), at(6, 0), at(3, 3)));
    found.push((at(0, 5), at(39, 6), at(20, 5)));
    found.push((at(2, 0), at(3, 39), at(4, 0)));
    found
}

#[test]
fn on_the_grid_every_pixel_of_the_test_is_beside_one_of_the_sweep() {
    for (a, b, c) in grid_triangles() {
        let by_test = filled(a, b, c, 40, 40);
        let by_sweep = swept(a, b, c, 40, 40);
        assert!(!by_test.is_empty());
        for &(x, y) in &by_test {
            assert!(by_sweep.contains(&(x, y)) || (x > 0 && by_sweep.contains(&(x - 1, y))));
        }
    }
}

#[test]
fn on_the_grid_every_pixel_of_the_sweep_is_beside_one_of_the_test() {
    for (a, b, c) in grid_triangles() {
        let by_test = filled(a, b, c, 40, 40);
        let by_sweep = swept(a, b, c, 40, 40);
        for &(x, y) in &by_sweep {
            if by_test.iter().any(|&(_, row)| row == y) {
                assert!(by_test.contains(&(x, y)) || by_test.contains(&(x + 1, y)));
            }
        }
    }
}

#[test]
fn on_the_grid_the_test_paints_what_the_triangle_holds() {
    for (a, b, c) in grid_triangles() {
        let by_test = filled(a, b, c, 40, 40);
        for x in 0..40 {
            for y in 0..40 {
                let (_, each) = sides(a, b, c, x, y);
                assert_eq!(by_test.contains(&(x, y)), each.iter().all(|&t| t >= 0));
            }
        }
    }
}
