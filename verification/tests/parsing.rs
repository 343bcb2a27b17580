use std::collections::VecDeque;
use tiny_renderer::geometry::fixed::ONE;
use tiny_renderer::geometry::types::{Face, Vec3f};
use tiny_renderer::parse::text::{
    parse_index, parse_line, parse_number, seek, Class, LineError, ObjLine, ParseError,
};
use tiny_renderer::parse::{parse_obj, ObjFace, ObjVertex};

#[test]
fn seek_finds_the_first_byte_of_a_kind() {
    let text = b"  ab\tc/d.e\nf";
    assert_eq!(seek(text, 0, Class::Ink), 2);
    assert_eq!(seek(text, 2, Class::Ink), 2);
    assert_eq!(seek(text, 2, Class::Space), 4);
    assert_eq!(seek(text, 0, Class::Slash), 6);
    assert_eq!(seek(text, 0, Class::Point), 8);
    assert_eq!(seek(text, 0, Class::Newline), 10);
    assert_eq!(seek(text, 0, Class::Exponent), 9);
    assert_eq!(seek(b"1.5E3", 0, Class::Exponent), 3);
    assert_eq!(seek(text, 11, Class::Newline), 12);
    assert_eq!(seek(text, 12, Class::Ink), 12);
    assert_eq!(seek(b"", 0, Class::Space), 0);
}

#[test]
fn seek_knows_the_six_kinds_of_white_space() {
    for &b in b" \t\n\x0b\x0c\r" {
        assert_eq!(seek(&[b'a', b, b'c'], 0, Class::Space), 1);
        assert_eq!(seek(&[b, b'c'], 0, Class::Ink), 1);
    }
    assert_eq!(seek(&[8, 14, 0, 31, 33, 160], 0, Class::Space), 6);
}

#[test]
fn parse_index_reads_decimal_digits() {
    assert_eq!(parse_index(b"1"), Some(1));
    assert_eq!(parse_index(b"12"), Some(12));
    assert_eq!(parse_index(b"0"), Some(0));
    assert_eq!(parse_index(b"007"), Some(7));
    assert_eq!(parse_index(b"+7"), Some(7));
    assert_eq!(parse_index(b"1234567890"), Some(1234567890));
}

#[test]
fn parse_index_refuses_what_is_no_number() {
    assert_eq!(parse_index(b""), None);
    assert_eq!(parse_index(b"+"), None);
    assert_eq!(parse_index(b"-1"), None);
    assert_eq!(parse_index(b"1a"), None);
    assert_eq!(parse_index(b"a1"), None);
    assert_eq!(parse_index(b"1.0"), None);
    assert_eq!(parse_index(b" 1"), None);
    assert_eq!(parse_index(b"++1"), None);
}

#[test]
fn parse_index_refuses_what_usize_cannot_hold() {
    let largest = format!("{}", usize::MAX);
    assert_eq!(parse_index(largest.as_bytes()), Some(usize::MAX));
    let padded = format!("000{}", usize::MAX);
    assert_eq!(parse_index(padded.as_bytes()), Some(usize::MAX));
    let more = format!("{}", usize::MAX as u128 + 1);
    assert_eq!(parse_index(more.as_bytes()), None);
    assert_eq!(parse_index(b"99999999999999999999999999"), None);
    assert_eq!(parse_index(b"99999999999999999999999999x"), None);
}

#[test]
fn parse_number_reads_decimal_notation() {
    assert_eq!(parse_number(b"1"), Some(ONE));
    assert_eq!(parse_number(b"0"), Some(0));
    assert_eq!(parse_number(b"-1"), Some(-ONE));
    assert_eq!(parse_number(b"+1"), Some(ONE));
    assert_eq!(parse_number(b"0.5"), Some(ONE / 2));
    assert_eq!(parse_number(b"-0.5"), Some(-ONE / 2));
    assert_eq!(parse_number(b"2.25"), Some(9_663_676_416));
    assert_eq!(parse_number(b".5"), Some(ONE / 2));
    assert_eq!(parse_number(b"5."), Some(5 * ONE));
    assert_eq!(parse_number(b"-.25"), Some(-ONE / 4));
    assert_eq!(parse_number(b"007.50"), Some(15 * ONE / 2));
    assert_eq!(parse_number(b"-0"), Some(0));
}

#[test]
fn parse_number_cuts_off_beyond_the_last_binary_place() {
    assert_eq!(parse_number(b"0.1"), Some(429_496_729));
    assert_eq!(parse_number(b"-0.1"), Some(-429_496_729));
    assert_eq!(parse_number(b"0.333333"), Some(1_431_654_333));
    assert_eq!(parse_number(b"0.0000000001"), Some(0));
    assert_eq!(parse_number(b"0.0000000003"), Some(1));
}

#[test]
fn parse_number_refuses_what_is_no_number() {
    assert_eq!(parse_number(b""), None);
    assert_eq!(parse_number(b"-"), None);
    assert_eq!(parse_number(b"+"), None);
    assert_eq!(parse_number(b"."), None);
    assert_eq!(parse_number(b"-."), None);
    assert_eq!(parse_number(b"1.2.3"), None);
    assert_eq!(parse_number(b"1..2"), None);
    assert_eq!(parse_number(b"1e"), None);
    assert_eq!(parse_number(b"e5"), None);
    assert_eq!(parse_number(b"1e+"), None);
    assert_eq!(parse_number(b"1e-"), None);
    assert_eq!(parse_number(b"1e5e5"), None);
    assert_eq!(parse_number(b"1e5.0"), None);
    assert_eq!(parse_number(b"1e 5"), None);
    assert_eq!(parse_number(b".e5"), None);
    assert_eq!(parse_number(b"inf"), None);
    assert_eq!(parse_number(b"infinity"), None);
    assert_eq!(parse_number(b"abc"), None);
    assert_eq!(parse_number(b"1a"), None);
    assert_eq!(parse_number(b"--1"), None);
    assert_eq!(parse_number(b"1-"), None);
    assert_eq!(parse_number(b"1 "), None);
    assert_eq!(parse_number(b"nan"), None);
    assert_eq!(parse_number(b"1/2"), None);
}

#[test]
fn parse_number_reads_an_exponent() {
    assert_eq!(parse_number(b"1e5"), Some(100_000 * ONE));
    assert_eq!(parse_number(b"1E5"), Some(100_000 * ONE));
    assert_eq!(parse_number(b"1e+5"), Some(100_000 * ONE));
    assert_eq!(parse_number(b"-2.5e2"), Some(-250 * ONE));
    assert_eq!(parse_number(b"5e-1"), Some(ONE / 2));
    assert_eq!(parse_number(b"1.5e-3"), Some(6_442_450));
    assert_eq!(parse_number(b"1e-3"), Some(4_294_967));
    assert_eq!(parse_number(b"-1e-3"), Some(-4_294_967));
    assert_eq!(parse_number(b"1e0"), Some(ONE));
    assert_eq!(parse_number(b"1e-0"), Some(ONE));
    assert_eq!(parse_number(b"12.e1"), Some(120 * ONE));
    assert_eq!(parse_number(b".5e1"), Some(5 * ONE));
    assert_eq!(parse_number(b"1e9"), Some(1_000_000_000 * ONE));
    assert_eq!(parse_number(b"1e0009"), Some(1_000_000_000 * ONE));
    assert_eq!(parse_number(b"123456789012345678e-17"), Some(5_302_428_712));
}

#[test]
fn parse_number_with_an_exponent_beyond_every_digit() {
    assert_eq!(parse_number(b"1e-9"), Some(4));
    assert_eq!(parse_number(b"1e-10"), Some(0));
    assert_eq!(parse_number(b"1e-28"), Some(0));
    assert_eq!(parse_number(b"1e-29"), Some(0));
    assert_eq!(parse_number(b"999999999999999999e-999999999999999999"), Some(0));
    assert_eq!(parse_number(b"-9.9e-300"), Some(0));
    assert_eq!(parse_number(b"0e999999999999999999"), Some(0));
    assert_eq!(parse_number(b"0.000e30"), Some(0));
    assert_eq!(parse_number(b"2e9"), Some(2_000_000_000 * ONE));
    assert_eq!(parse_number(b"3e9"), None);
    assert_eq!(parse_number(b"1e10"), None);
    assert_eq!(parse_number(b"1e18"), None);
    assert_eq!(parse_number(b"1e19"), None);
    assert_eq!(parse_number(b"1e999999999999999999"), None);
    assert_eq!(parse_number(b"1e1000000000000000000"), None);
    assert_eq!(parse_number(b".000000000000000001e27"), Some(1_000_000_000 * ONE));
    assert_eq!(parse_number(b"0.000000000000000001e27"), None);
    assert_eq!(parse_number(b"214748364799999999e-8"), Some(9_223_372_036_854_775_765));
    assert_eq!(parse_number(b"214748364800000000e-8"), None);
}

#[test]
fn parse_line_reads_a_vertex_with_exponents() {
    assert_eq!(
        parse_line(b"v 1e0 -5e-1 2.25E0"),
        Ok(ObjLine::Vertex(ObjVertex([ONE, -ONE / 2, 9_663_676_416])))
    );
    assert_eq!(parse_line(b"f 1e0 2 3"), Err(LineError::BadNumber));
}

#[test]
fn parse_number_takes_eighteen_digits_and_no_more() {
    assert_eq!(parse_number(b"0.00000000000000000"), Some(0));
    assert_eq!(parse_number(b"0.000000000000000000"), None);
    assert_eq!(parse_number(b"1.00000000000000000"), Some(ONE));
    assert_eq!(parse_number(b"000000000000000001"), Some(ONE));
    assert_eq!(parse_number(b"0000000000000000001"), None);
    assert_eq!(parse_number(b"0.123456789012345678"), None);
    assert_eq!(parse_number(b".123456789012345678"), Some(530_242_871));
}

#[test]
fn parse_number_refuses_what_i64_cannot_hold() {
    assert_eq!(parse_number(b"2147483647"), Some(2_147_483_647 * ONE));
    assert_eq!(parse_number(b"-2147483647"), Some(-2_147_483_647 * ONE));
    assert_eq!(parse_number(b"2147483647.99999999"), Some(9_223_372_036_854_775_765));
    assert_eq!(parse_number(b"2147483648"), None);
    assert_eq!(parse_number(b"-2147483648"), None);
    assert_eq!(parse_number(b"999999999999999999"), None);
}

#[test]
fn parse_line_reads_a_vertex() {
    assert_eq!(
        parse_line(b"v 1 -0.5 2.25"),
        Ok(ObjLine::Vertex(ObjVertex([ONE, -ONE / 2, 9_663_676_416])))
    );
    assert_eq!(
        parse_line(b"  v\t1   2 \t 3  \r"),
        Ok(ObjLine::Vertex(ObjVertex([ONE, 2 * ONE, 3 * ONE])))
    );
    assert_eq!(
        parse_line(b"v 1 2 3 4 extra"),
        Ok(ObjLine::Vertex(ObjVertex([ONE, 2 * ONE, 3 * ONE])))
    );
}

#[test]
fn parse_line_reads_a_face() {
    assert_eq!(parse_line(b"f 1 2 3"), Ok(ObjLine::Face(ObjFace([1, 2, 3]))));
    assert_eq!(parse_line(b"f 1/2/3 4/5/6 7/8/9"), Ok(ObjLine::Face(ObjFace([1, 4, 7]))));
    assert_eq!(parse_line(b"f 10//3 11/ 12"), Ok(ObjLine::Face(ObjFace([10, 11, 12]))));
    assert_eq!(parse_line(b"f 1 2 3 4"), Ok(ObjLine::Face(ObjFace([1, 2, 3]))));
    assert_eq!(parse_line(b"f 0 0 0"), Ok(ObjLine::Face(ObjFace([0, 0, 0]))));
    assert_eq!(parse_line(b"f 1/x 2/-/. 3/"), Ok(ObjLine::Face(ObjFace([1, 2, 3]))));
}

#[test]
fn parse_line_passes_over_other_lines() {
    assert_eq!(parse_line(b""), Ok(ObjLine::Other));
    assert_eq!(parse_line(b"   \t "), Ok(ObjLine::Other));
    assert_eq!(parse_line(b"# a comment"), Ok(ObjLine::Other));
    assert_eq!(parse_line(b"vt 0.5 0.5"), Ok(ObjLine::Other));
    assert_eq!(parse_line(b"vn x y z"), Ok(ObjLine::Other));
    assert_eq!(parse_line(b"g head"), Ok(ObjLine::Other));
    assert_eq!(parse_line(b"V 1 2 3"), Ok(ObjLine::Other));
    assert_eq!(parse_line(b"ff 1 2 3"), Ok(ObjLine::Other));
}

#[test]
fn parse_line_misses_a_field() {
    assert_eq!(parse_line(b"v"), Err(LineError::MissingField));
    assert_eq!(parse_line(b"v 1"), Err(LineError::MissingField));
    assert_eq!(parse_line(b"v 1 2"), Err(LineError::MissingField));
    assert_eq!(parse_line(b"v 1 2   "), Err(LineError::MissingField));
    assert_eq!(parse_line(b"f"), Err(LineError::MissingField));
    assert_eq!(parse_line(b"f 1/1/1 2/2/2"), Err(LineError::MissingField));
}

#[test]
fn parse_line_meets_a_bad_number() {
    assert_eq!(parse_line(b"v 1 x 3"), Err(LineError::BadNumber));
    assert_eq!(parse_line(b"v 1 2 3e"), Err(LineError::BadNumber));
    assert_eq!(parse_line(b"v one"), Err(LineError::BadNumber));
    assert_eq!(parse_line(b"f 1 2 x"), Err(LineError::BadNumber));
    assert_eq!(parse_line(b"f 1 -2 3"), Err(LineError::BadNumber));
    assert_eq!(parse_line(b"f 1 /2 3"), Err(LineError::BadNumber));
    assert_eq!(parse_line(b"f 1.5 2 3"), Err(LineError::BadNumber));
}

#[test]
fn parse_line_reports_the_first_thing_wrong() {
    assert_eq!(parse_line(b"v x 2"), Err(LineError::BadNumber));
    assert_eq!(parse_line(b"v 1 2 "), Err(LineError::MissingField));
    assert_eq!(parse_line(b"f x"), Err(LineError::BadNumber));
}

#[test]
fn parse_obj_reads_vertices_and_faces_in_order() {
    let text = b"# a square\nv -1 -1 0\nv 1 -1 0\nv 1 1 0\nv -1 1 0.5\n\nvt 0 0\nf 1 2 3\nf 1/1 3/3 4/4\n";
    let (vertices, faces) = parse_obj(text).unwrap();
    let expected_vertices: VecDeque<ObjVertex> = vec![
        ObjVertex([-ONE, -ONE, 0]),
        ObjVertex([ONE, -ONE, 0]),
        ObjVertex([ONE, ONE, 0]),
        ObjVertex([-ONE, ONE, ONE / 2]),
    ]
    .into_iter()
    .collect();
    let expected_faces: VecDeque<ObjFace> =
        vec![ObjFace([1, 2, 3]), ObjFace([1, 3, 4])].into_iter().collect();
    assert_eq!(vertices, expected_vertices);
    assert_eq!(faces, expected_faces);
}

#[test]
fn parse_obj_reads_a_last_line_without_an_end() {
    let (vertices, faces) = parse_obj(b"f 3 2 1\nv 0 0 0").unwrap();
    assert_eq!(vertices.len(), 1);
    assert_eq!(faces.len(), 1);
    assert_eq!(vertices[0], ObjVertex([0, 0, 0]));
    assert_eq!(faces[0], ObjFace([3, 2, 1]));
}

#[test]
fn parse_obj_reads_lines_that_end_with_a_carriage_return() {
    let (vertices, faces) = parse_obj(b"v 1 2 3\r\nf 1 1 1\r\n").unwrap();
    assert_eq!(vertices[0], ObjVertex([ONE, 2 * ONE, 3 * ONE]));
    assert_eq!(faces[0], ObjFace([1, 1, 1]));
}

#[test]
fn parse_obj_of_nothing_is_an_empty_mesh() {
    let (vertices, faces) = parse_obj(b"").unwrap();
    assert!(vertices.is_empty() && faces.is_empty());
    let (vertices, faces) = parse_obj(b"\n\n\n").unwrap();
    assert!(vertices.is_empty() && faces.is_empty());
}

#[test]
fn parse_obj_names_the_first_line_that_cannot_be_read() {
    assert_eq!(
        parse_obj(b"v 0 0 0\nv 1 1\nv x y z\n"),
        Err(ParseError { line: 2, kind: LineError::MissingField })
    );
    assert_eq!(
        parse_obj(b"\n\nf 1 2 three"),
        Err(ParseError { line: 3, kind: LineError::BadNumber })
    );
    assert_eq!(parse_obj(b"v"), Err(ParseError { line: 1, kind: LineError::MissingField }));
}

#[test]
fn obj_vertex_has_three_coordinates() {
    let v = ObjVertex([1, 2, 3]);
    assert_eq!((v.x(), v.y(), v.z()), (1, 2, 3));
    assert_eq!(v.to_vec3f(), Vec3f([1, 2, 3]));
}

#[test]
fn obj_vertex_sum_difference_and_scaling() {
    let a = ObjVertex([ONE, 2 * ONE, 3 * ONE]);
    let b = ObjVertex([10, 20, 30]);
    assert_eq!(a + b, ObjVertex([ONE + 10, 2 * ONE + 20, 3 * ONE + 30]));
    assert_eq!(a - b, ObjVertex([ONE - 10, 2 * ONE - 20, 3 * ONE - 30]));
    assert_eq!(a * (ONE / 2), ObjVertex([ONE / 2, ONE, 3 * ONE / 2]));
    assert_eq!(a * (-2 * ONE), ObjVertex([-2 * ONE, -4 * ONE, -6 * ONE]));
}

#[test]
fn obj_face_counts_its_vertices_from_one() {
    let face = ObjFace([1, 5, 9]);
    assert_eq!(face.get_vertex_index(0), 0);
    assert_eq!(face.get_vertex_index(1), 4);
    assert_eq!(face.get_vertex_index(2), 8);
    assert_eq!(face.to_face(), Face([1, 5, 9]));
}
