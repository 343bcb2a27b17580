use tiny_renderer::geometry::fixed::ONE;
use tiny_renderer::geometry::types::Vec3f;
use tiny_renderer::render::canvas::{Canvas, Rgba, RgbaCanvas};
use tiny_renderer::render::shading::NOTHING;
use tiny_renderer::render::triangle_with_gamma_smart;

const CLEAR: Rgba = Rgba([0, 0, 0, 0]);
const RED: Rgba = Rgba([255, 0, 0, 255]);
const BLUE: Rgba = Rgba([0, 0, 255, 255]);

fn at(x: i64, y: i64, z: i64) -> Vec3f {
    Vec3f([x * ONE, y * ONE, z * ONE])
}

fn blank(width: u32, height: u32) -> Vec<i64> {
    vec![NOTHING; (width * height) as usize]
}

fn snapshot(image: &RgbaCanvas) -> Vec<Rgba> {
    let mut pixels = Vec::new();
    for y in 0..image.height() {
        for x in 0..image.width() {
            pixels.push(image.get_pixel(x, y));
        }
    }
    pixels
}

#[test]
fn nothing_is_below_every_depth() {
    assert_eq!(NOTHING, i64::MIN);
}

#[test]
fn the_first_triangle_shows_everywhere_and_sets_the_depths() {
    let mut image = RgbaCanvas::new(6, 6);
    let mut depths = blank(6, 6);
    triangle_with_gamma_smart(&at(0, 0, 1), &at(4, 0, 5), &at(0, 4, 9), &mut depths, &mut image, RED);
    assert_eq!(image.get_pixel(0, 0), RED);
    assert_eq!(image.get_pixel(1, 1), RED);
    assert_eq!(image.get_pixel(2, 2), RED);
    assert_eq!(image.get_pixel(3, 3), CLEAR);
    assert_eq!(depths[0], ONE);
    assert_eq!(depths[1 + 6], 4 * ONE);
    assert_eq!(depths[2 + 2 * 6], 7 * ONE);
    assert_eq!(depths[4], 5 * ONE);
    assert_eq!(depths[4 * 6], 9 * ONE);
    assert_eq!(depths[1 + 2 * 6], 6 * ONE);
    assert_eq!(depths[3 + 3 * 6], NOTHING);
    assert_eq!(depths.len(), 36);
}

#[test]
fn the_nearer_triangle_shows() {
    let mut image = RgbaCanvas::new(6, 6);
    let mut depths = blank(6, 6);
    triangle_with_gamma_smart(&at(0, 0, 2), &at(5, 0, 2), &at(0, 5, 2), &mut depths, &mut image, RED);
    triangle_with_gamma_smart(&at(0, 0, 1), &at(5, 0, 1), &at(0, 5, 1), &mut depths, &mut image, BLUE);
    assert_eq!(image.get_pixel(1, 1), RED);
    assert_eq!(depths[1 + 6], 2 * ONE);
    triangle_with_gamma_smart(&at(0, 0, 3), &at(2, 0, 3), &at(0, 2, 3), &mut depths, &mut image, BLUE);
    assert_eq!(image.get_pixel(1, 1), BLUE);
    assert_eq!(image.get_pixel(2, 2), RED);
    assert_eq!(depths[1 + 6], 3 * ONE);
    assert_eq!(depths[2 + 2 * 6], 2 * ONE);
}

#[test]
fn of_two_equally_near_triangles_the_first_shows() {
    let mut image = RgbaCanvas::new(6, 6);
    let mut depths = blank(6, 6);
    triangle_with_gamma_smart(&at(0, 0, 2), &at(5, 0, 2), &at(0, 5, 2), &mut depths, &mut image, RED);
    triangle_with_gamma_smart(&at(0, 0, 2), &at(5, 0, 2), &at(0, 5, 2), &mut depths, &mut image, BLUE);
    assert_eq!(image.get_pixel(1, 1), RED);
}

#[test]
fn the_order_of_two_triangles_does_not_matter() {
    let near = (at(2, 1, 5), at(9, 3, 5), at(4, 9, 5));
    let far = (at(0, 0, 1), at(11, 0, 2), at(0, 11, 3));
    let mut first = RgbaCanvas::new(12, 12);
    let mut first_depths = blank(12, 12);
    triangle_with_gamma_smart(&near.0, &near.1, &near.2, &mut first_depths, &mut first, RED);
    triangle_with_gamma_smart(&far.0, &far.1, &far.2, &mut first_depths, &mut first, BLUE);
    let mut second = RgbaCanvas::new(12, 12);
    let mut second_depths = blank(12, 12);
    triangle_with_gamma_smart(&far.0, &far.1, &far.2, &mut second_depths, &mut second, BLUE);
    triangle_with_gamma_smart(&near.0, &near.1, &near.2, &mut second_depths, &mut second, RED);
    assert_eq!(snapshot(&first), snapshot(&second));
    assert_eq!(first_depths, second_depths);
    assert_eq!(first.get_pixel(4, 4), RED);
    assert_eq!(first.get_pixel(1, 1), BLUE);
    assert_eq!(first.get_pixel(11, 11), CLEAR);
}

#[test]
fn triangles_that_cross_each_other_show_the_nearer_part_of_each() {
    let rising = (at(0, 0, 0), at(10, 0, 10), at(0, 10, 0));
    let falling = (at(0, 0, 10), at(10, 0, 0), at(0, 10, 10));
    let mut image = RgbaCanvas::new(12, 12);
    let mut depths = blank(12, 12);
    triangle_with_gamma_smart(&rising.0, &rising.1, &rising.2, &mut depths, &mut image, RED);
    triangle_with_gamma_smart(&falling.0, &falling.1, &falling.2, &mut depths, &mut image, BLUE);
    assert_eq!(image.get_pixel(1, 1), BLUE);
    assert_eq!(image.get_pixel(8, 1), RED);
    assert_eq!(depths[1 + 12], 38_654_705_670);
    assert_eq!(depths[8 + 12], 34_359_738_360);
}

#[test]
fn a_triangle_with_depths_on_an_empty_canvas() {
    let mut image = RgbaCanvas::new(0, 0);
    let mut depths = blank(0, 0);
    triangle_with_gamma_smart(&at(0, 0, 1), &at(4, 0, 1), &at(0, 4, 1), &mut depths, &mut image, RED);
    assert!(depths.is_empty());
}
