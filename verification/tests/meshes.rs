use std::collections::VecDeque;
use tiny_renderer::geometry::fixed::ONE;
use tiny_renderer::geometry::ops::COORD_MAX;
use tiny_renderer::geometry::types::{Face, Vec3f};
use tiny_renderer::render::canvas::{Canvas, Rgb, RgbCanvas, Rgba, RgbaCanvas};
use tiny_renderer::render::mesh::{
    corners, is_drawable, is_placeable, project, validate_faces, MeshError,
};
use tiny_renderer::render::shading::face_shade;
use tiny_renderer::render::{
    flat_shade, flat_shade_with, wire_frame, with_light, with_light_smart,
};

const HALF: i64 = ONE / 2;
const BLACK: Rgb = Rgb([0, 0, 0]);
const CLEAR: Rgba = Rgba([0, 0, 0, 0]);

fn halves(x: i64, y: i64, z: i64) -> Vec3f {
    Vec3f([x * HALF, y * HALF, z * HALF])
}

fn one_triangle() -> (VecDeque<Vec3f>, VecDeque<Face>) {
    let vertices: VecDeque<Vec3f> =
        vec![halves(-1, -1, 0), halves(1, -1, 0), halves(0, 1, 0)].into_iter().collect();
    let faces: VecDeque<Face> = vec![Face([1, 2, 3])].into_iter().collect();
    (vertices, faces)
}

fn toward_the_viewer() -> Vec3f {
    Vec3f([0, 0, -ONE])
}

fn rgb_painted(image: &RgbCanvas) -> Vec<(u32, u32)> {
    let mut found = Vec::new();
    for x in 0..image.width() {
        for y in 0..image.height() {
            if image.get_pixel(x, y) != BLACK {
                found.push((x, y));
            }
        }
    }
    found
}

fn rgba_snapshot(image: &RgbaCanvas) -> Vec<Rgba> {
    let mut pixels = Vec::new();
    for y in 0..image.height() {
        for x in 0..image.width() {
            pixels.push(image.get_pixel(x, y));
        }
    }
    pixels
}

#[test]
fn validate_faces_accepts_numbers_from_one_to_the_count() {
    let faces: VecDeque<Face> = vec![Face([1, 2, 3]), Face([3, 3, 1])].into_iter().collect();
    assert_eq!(validate_faces(&faces, 3), Ok(()));
    assert_eq!(validate_faces(&VecDeque::new(), 0), Ok(()));
}

#[test]
fn validate_faces_names_the_first_bad_face() {
    let faces: VecDeque<Face> =
        vec![Face([1, 2, 3]), Face([1, 0, 2]), Face([9, 9, 9])].into_iter().collect();
    assert_eq!(validate_faces(&faces, 3), Err(MeshError::BadFace(1)));
    let faces: VecDeque<Face> = vec![Face([1, 2, 4])].into_iter().collect();
    assert_eq!(validate_faces(&faces, 3), Err(MeshError::BadFace(0)));
    assert_eq!(validate_faces(&faces, 4), Ok(()));
    let faces: VecDeque<Face> = vec![Face([1, 1, 1])].into_iter().collect();
    assert_eq!(validate_faces(&faces, 0), Err(MeshError::BadFace(0)));
}

#[test]
fn corners_are_looked_up_by_number() {
    let vertices: VecDeque<Vec3f> =
        vec![Vec3f([1, 1, 1]), Vec3f([2, 2, 2]), Vec3f([3, 3, 3])].into_iter().collect();
    assert_eq!(
        corners(&vertices, &Face([3, 1, 2])),
        (Vec3f([3, 3, 3]), Vec3f([1, 1, 1]), Vec3f([2, 2, 2]))
    );
}

#[test]
fn project_spreads_the_world_over_the_canvas() {
    assert_eq!(project(&halves(-2, -2, 7), 20, 10, 0), Vec3f([0, 0, 0]));
    assert_eq!(project(&halves(0, 0, 7), 20, 10, 0), Vec3f([10 * ONE, 5 * ONE, 0]));
    assert_eq!(project(&halves(-1, 1, 7), 20, 10, 42), Vec3f([5 * ONE, 15 * HALF, 42]));
    assert_eq!(project(&halves(2, 2, 7), 21, 11, 0), Vec3f([20 * ONE, 10 * ONE, 0]));
}

#[test]
fn is_drawable_tests_the_point_and_its_place_on_the_canvas() {
    assert!(is_drawable(&halves(1, 1, 1), 800, 800));
    assert!(is_drawable(&Vec3f([COORD_MAX, 0, 0]), 1, 1));
    assert!(!is_drawable(&Vec3f([COORD_MAX + 1, 0, 0]), 1, 1));
    assert!(!is_drawable(&Vec3f([COORD_MAX, 0, 0]), 2, 2));
    assert!(is_drawable(&Vec3f([COORD_MAX - ONE, 0, 0]), 2, 2));
    assert!(!is_drawable(&Vec3f([0, 0, -COORD_MAX - 1]), 2, 2));
    assert!(is_drawable(&Vec3f([ONE, ONE, 0]), 8192, 8192));
    assert!(!is_drawable(&Vec3f([ONE, ONE, 0]), 8194, 8192));
    assert!(!is_drawable(&Vec3f([ONE, ONE, 0]), 8192, 8194));
}

#[test]
fn is_placeable_tests_the_place_on_the_canvas_only() {
    assert!(is_placeable(&Vec3f([ONE, ONE, i64::MAX]), 8192, 8192));
    assert!(!is_drawable(&Vec3f([ONE, ONE, i64::MAX]), 8192, 8192));
    assert!(!is_placeable(&Vec3f([ONE, ONE, 0]), 8194, 8192));
    assert!(!is_placeable(&Vec3f([ONE, ONE, 0]), 8192, 8194));
    assert!(is_placeable(&Vec3f([i64::MAX, i64::MIN, 0]), 1, 1));
    assert!(!is_placeable(&Vec3f([i64::MAX, 0, 0]), 2, 2));
    assert!(is_placeable(&Vec3f([-COORD_MAX - ONE, 0, 0]), 2, 2));
    assert!(!is_placeable(&Vec3f([-COORD_MAX - ONE - 1, 0, 0]), 2, 2));
}

#[test]
fn wire_frame_passes_over_what_the_canvas_does_not_hold() {
    let vertices: VecDeque<Vec3f> =
        vec![halves(-2, -2, 0), halves(6, -2, 0), halves(-2, 6, 0)].into_iter().collect();
    let faces: VecDeque<Face> = vec![Face([1, 2, 3])].into_iter().collect();
    let mut image = RgbCanvas::new(4, 4);
    let white = Rgb([255, 255, 255]);
    assert_eq!(wire_frame(&mut image, white, &vertices, &faces), Ok(()));
    assert_eq!(
        rgb_painted(&image),
        vec![(0, 0), (0, 1), (0, 2), (0, 3), (1, 0), (2, 0), (3, 0)]
    );
}

#[test]
fn flat_shade_with_does_not_read_the_depth() {
    let vertices: VecDeque<Vec3f> = vec![
        Vec3f([-ONE, -ONE, i64::MAX]),
        Vec3f([0, -ONE, i64::MIN]),
        Vec3f([-ONE, 0, 12345]),
    ]
    .into_iter()
    .collect();
    let faces: VecDeque<Face> = vec![Face([1, 2, 3])].into_iter().collect();
    let mut image = RgbCanvas::new(20, 20);
    assert_eq!(flat_shade_with(&mut image, &vertices, &faces, &vec![Rgb([1, 2, 3])]), Ok(()));
    assert_eq!(image.get_pixel(0, 0), Rgb([1, 2, 3]));
    assert_eq!(image.get_pixel(3, 3), Rgb([1, 2, 3]));
    assert_eq!(image.get_pixel(10, 10), BLACK);
}

#[test]
fn wire_frame_draws_the_three_edges() {
    let (vertices, faces) = one_triangle();
    let mut image = RgbCanvas::new(20, 20);
    let white = Rgb([255, 255, 255]);
    assert_eq!(wire_frame(&mut image, white, &vertices, &faces), Ok(()));
    let mut expected = vec![
        (5, 5), (6, 5), (7, 5), (8, 5), (9, 5), (10, 5), (11, 5), (12, 5), (13, 5), (14, 5),
        (15, 5), (15, 6), (14, 7), (14, 8), (13, 9), (13, 10), (12, 11), (12, 12), (11, 13),
        (11, 14), (10, 15), (5, 6), (6, 7), (6, 8), (7, 9), (7, 10), (8, 11), (8, 12), (9, 13),
        (9, 14),
    ];
    expected.sort();
    assert_eq!(rgb_painted(&image), expected);
    assert_eq!(image.get_pixel(10, 5), white);
}

#[test]
fn wire_frame_refuses_a_face_that_names_no_vertex() {
    let (vertices, _) = one_triangle();
    let faces: VecDeque<Face> = vec![Face([1, 2, 3]), Face([1, 2, 4])].into_iter().collect();
    let mut image = RgbCanvas::new(20, 20);
    assert_eq!(
        wire_frame(&mut image, Rgb([255, 255, 255]), &vertices, &faces),
        Err(MeshError::BadFace(1))
    );
    assert_eq!(rgb_painted(&image), vec![]);
    let faces: VecDeque<Face> = vec![Face([0, 2, 3])].into_iter().collect();
    assert_eq!(
        wire_frame(&mut image, Rgb([255, 255, 255]), &vertices, &faces),
        Err(MeshError::BadFace(0))
    );
}

#[test]
fn face_shade_is_the_rounded_share_of_the_light() {
    let (a, b, c) = (halves(-1, -1, 0), halves(1, -1, 0), halves(0, 1, 0));
    assert_eq!(face_shade(&a, &b, &c, Vec3f([0, 0, -ONE])), Some(255));
    assert_eq!(face_shade(&a, &b, &c, Vec3f([0, 2_576_980_377, -3_435_973_836])), Some(204));
    assert_eq!(face_shade(&a, &b, &c, Vec3f([0, 0, -HALF])), Some(128));
    assert_eq!(face_shade(&a, &b, &c, Vec3f([0, 0, -2 * ONE])), Some(255));
    let (a, b, c) = (halves(-1, -1, 1), halves(1, -1, 1), halves(0, 1, -1));
    assert_eq!(face_shade(&a, &b, &c, Vec3f([0, 0, -ONE])), Some(180));
}

#[test]
fn face_shade_is_nothing_for_a_face_that_is_not_lit() {
    let (a, b, c) = (halves(-1, -1, 0), halves(1, -1, 0), halves(0, 1, 0));
    assert_eq!(face_shade(&a, &b, &c, Vec3f([0, 0, ONE])), None);
    assert_eq!(face_shade(&a, &b, &c, Vec3f([ONE, 0, 0])), None);
    assert_eq!(face_shade(&a, &b, &c, Vec3f([0, 0, 0])), None);
    assert_eq!(face_shade(&b, &a, &c, Vec3f([0, 0, -ONE])), None);
    assert_eq!(face_shade(&a, &a, &a, Vec3f([0, 0, -ONE])), None);
    assert_eq!(face_shade(&a, &b, &halves(3, -1, 0), Vec3f([0, 0, -ONE])), None);
}

#[test]
fn with_light_paints_a_lit_face_grey() {
    let (vertices, faces) = one_triangle();
    let mut image = RgbaCanvas::new(20, 20);
    assert_eq!(with_light(&mut image, &vertices, &faces, toward_the_viewer()), Ok(()));
    let white = Rgba([255, 255, 255, 255]);
    assert_eq!(image.get_pixel(10, 10), white);
    assert_eq!(image.get_pixel(5, 5), white);
    assert_eq!(image.get_pixel(15, 5), white);
    assert_eq!(image.get_pixel(10, 15), white);
    assert_eq!(image.get_pixel(4, 5), CLEAR);
    assert_eq!(rgba_snapshot(&image).iter().filter(|&&p| p == white).count(), 61);
    assert_eq!(rgba_snapshot(&image).iter().filter(|&&p| p == CLEAR).count(), 400 - 61);
}

#[test]
fn with_light_dims_a_face_that_is_lit_at_an_angle() {
    let (vertices, faces) = one_triangle();
    let mut image = RgbaCanvas::new(20, 20);
    let light = Vec3f([0, 2_576_980_377, -3_435_973_836]);
    assert_eq!(with_light(&mut image, &vertices, &faces, light), Ok(()));
    assert_eq!(image.get_pixel(10, 10), Rgba([204, 204, 204, 255]));
}

#[test]
fn with_light_leaves_out_a_face_that_is_turned_away() {
    let (vertices, faces) = one_triangle();
    let mut image = RgbaCanvas::new(20, 20);
    assert_eq!(with_light(&mut image, &vertices, &faces, Vec3f([0, 0, ONE])), Ok(()));
    assert!(rgba_snapshot(&image).iter().all(|&p| p == CLEAR));
    let mut image = RgbaCanvas::new(20, 20);
    assert_eq!(with_light_smart(&mut image, &vertices, &faces, Vec3f([0, 0, ONE])), Ok(()));
    assert!(rgba_snapshot(&image).iter().all(|&p| p == CLEAR));
}

#[test]
fn with_light_leaves_out_a_face_without_a_normal() {
    let vertices: VecDeque<Vec3f> =
        vec![halves(-1, -1, 0), halves(0, 0, 0), halves(1, 1, 0)].into_iter().collect();
    let faces: VecDeque<Face> = vec![Face([1, 2, 3]), Face([1, 1, 1])].into_iter().collect();
    let mut image = RgbaCanvas::new(20, 20);
    assert_eq!(with_light(&mut image, &vertices, &faces, toward_the_viewer()), Ok(()));
    assert!(rgba_snapshot(&image).iter().all(|&p| p == CLEAR));
}

#[test]
fn with_light_draws_a_later_face_over_an_earlier_one() {
    let vertices: VecDeque<Vec3f> = vec![
        halves(-1, -1, 0),
        halves(1, -1, 0),
        halves(0, 1, 0),
        halves(-1, -1, 1),
        halves(1, -1, 1),
        halves(0, 1, -1),
    ]
    .into_iter()
    .collect();
    let faces: VecDeque<Face> = vec![Face([1, 2, 3]), Face([4, 5, 6])].into_iter().collect();
    let mut image = RgbaCanvas::new(20, 20);
    assert_eq!(with_light(&mut image, &vertices, &faces, toward_the_viewer()), Ok(()));
    assert_eq!(image.get_pixel(10, 10), Rgba([180, 180, 180, 255]));
    let faces: VecDeque<Face> = vec![Face([4, 5, 6]), Face([1, 2, 3])].into_iter().collect();
    let mut image = RgbaCanvas::new(20, 20);
    assert_eq!(with_light(&mut image, &vertices, &faces, toward_the_viewer()), Ok(()));
    assert_eq!(image.get_pixel(10, 10), Rgba([255, 255, 255, 255]));
}

#[test]
fn with_light_refuses_a_face_that_names_no_vertex() {
    let (vertices, _) = one_triangle();
    let faces: VecDeque<Face> = vec![Face([1, 2, 3]), Face([0, 1, 2])].into_iter().collect();
    let mut image = RgbaCanvas::new(20, 20);
    assert_eq!(
        with_light(&mut image, &vertices, &faces, toward_the_viewer()),
        Err(MeshError::BadFace(1))
    );
    assert!(rgba_snapshot(&image).iter().all(|&p| p == CLEAR));
    assert_eq!(
        with_light_smart(&mut image, &vertices, &faces, toward_the_viewer()),
        Err(MeshError::BadFace(1))
    );
    assert!(rgba_snapshot(&image).iter().all(|&p| p == CLEAR));
}

#[test]
fn with_light_smart_shows_the_nearer_face_in_either_order() {
    let vertices: VecDeque<Vec3f> = vec![
        halves(-1, -1, 0),
        halves(1, -1, 0),
        halves(0, 1, 0),
        halves(-2, -2, -1),
        halves(1, -2, -1),
        halves(-2, 1, 1),
    ]
    .into_iter()
    .collect();
    let light = toward_the_viewer();
    let faces: VecDeque<Face> = vec![Face([1, 2, 3]), Face([4, 5, 6])].into_iter().collect();
    let mut first = RgbaCanvas::new(20, 20);
    assert_eq!(with_light_smart(&mut first, &vertices, &faces, light), Ok(()));
    let faces: VecDeque<Face> = vec![Face([4, 5, 6]), Face([1, 2, 3])].into_iter().collect();
    let mut second = RgbaCanvas::new(20, 20);
    assert_eq!(with_light_smart(&mut second, &vertices, &faces, light), Ok(()));
    assert_eq!(rgba_snapshot(&first), rgba_snapshot(&second));
    let white = Rgba([255, 255, 255, 255]);
    assert_eq!(first.get_pixel(10, 6), white);
    assert_eq!(first.get_pixel(9, 5), white);
    assert_ne!(first.get_pixel(6, 8), white);
    assert_ne!(first.get_pixel(6, 8), CLEAR);
    assert_ne!(first.get_pixel(2, 2), white);
    assert_ne!(first.get_pixel(2, 2), CLEAR);
}

#[test]
fn flat_shade_with_paints_each_face_in_its_colour() {
    let vertices: VecDeque<Vec3f> = vec![
        halves(-2, -2, 0),
        halves(0, -2, 0),
        halves(-2, 0, 0),
        halves(0, 0, 0),
        halves(1, 0, 0),
        halves(0, 1, 0),
    ]
    .into_iter()
    .collect();
    let faces: VecDeque<Face> = vec![Face([1, 2, 3]), Face([4, 5, 6])].into_iter().collect();
    let colors = vec![Rgb([1, 2, 3]), Rgb([4, 5, 6])];
    let mut image = RgbCanvas::new(20, 20);
    assert_eq!(flat_shade_with(&mut image, &vertices, &faces, &colors), Ok(()));
    assert_eq!(image.get_pixel(0, 0), Rgb([1, 2, 3]));
    assert_eq!(image.get_pixel(3, 3), Rgb([1, 2, 3]));
    assert_eq!(image.get_pixel(10, 10), Rgb([4, 5, 6]));
    assert_eq!(image.get_pixel(12, 12), Rgb([4, 5, 6]));
    assert_eq!(image.get_pixel(19, 19), BLACK);
}

#[test]
fn flat_shade_with_refuses_a_face_that_names_no_vertex() {
    let (vertices, _) = one_triangle();
    let faces: VecDeque<Face> = vec![Face([7, 1, 2])].into_iter().collect();
    let mut image = RgbCanvas::new(20, 20);
    assert_eq!(
        flat_shade_with(&mut image, &vertices, &faces, &vec![Rgb([1, 1, 1])]),
        Err(MeshError::BadFace(0))
    );
    assert_eq!(rgb_painted(&image), vec![]);
    assert_eq!(flat_shade(&mut image, &vertices, &faces), Err(MeshError::BadFace(0)));
    assert_eq!(rgb_painted(&image), vec![]);
}

#[test]
fn flat_shade_paints_every_face_in_one_muted_colour() {
    let mut vertices: VecDeque<Vec3f> = VecDeque::new();
    let mut faces: VecDeque<Face> = VecDeque::new();
    for i in 0..8 {
        let left = -ONE + i * (ONE / 4);
        vertices.push_back(Vec3f([left, -ONE, 0]));
        vertices.push_back(Vec3f([left + ONE / 5, -ONE, 0]));
        vertices.push_back(Vec3f([left, -ONE + ONE / 5, 0]));
        let n = (3 * i + 1) as usize;
        faces.push_back(Face([n, n + 1, n + 2]));
    }
    let mut image = RgbCanvas::new(80, 80);
    assert_eq!(flat_shade(&mut image, &vertices, &faces), Ok(()));
    let mut seen = Vec::new();
    for i in 0..8u32 {
        let colour = image.get_pixel(10 * i, 0);
        assert!(colour.0.iter().all(|&c| c < 254));
        for x in 10 * i..10 * i + 8 {
            for y in 0..8 {
                let here = image.get_pixel(x, y);
                assert!(here == colour || here == BLACK);
            }
        }
        assert_eq!(image.get_pixel(10 * i + 1, 1), colour);
        seen.push(colour);
    }
    assert!(seen.iter().any(|&c| c != seen[0]));
    assert_eq!(image.get_pixel(79, 79), BLACK);
}
