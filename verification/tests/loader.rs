use tiny::wavefront::parse_index;
use tiny::wavefront::parse_scalar;
use tiny::wavefront::Axis;
use tiny::wavefront::Face;
use tiny::wavefront::Obj;
use tiny::wavefront::ObjError;
use tiny::wavefront::Tri;
use tiny::wavefront::Vert;
use tiny::wavefront::SCALE;

fn lines(ls: &[&str]) -> Vec<String> {
    ls.iter().map(|s| s.to_string()).collect()
}

#[test]
fn round_trip_counts_and_indices() {
    let obj = Obj::from_lines(&lines(&[
        "v 0 0 0",
        "v 1 1 1",
        "# a comment",
        "f 1/2/3 2 1/",
    ]))
    .unwrap();
    assert_eq!(obj.vertices.len(), 2);
    assert_eq!(obj.faces.len(), 1);
    assert_eq!(obj.faces[0].vertices, (0, 1, 0));
}

#[test]
fn parser_robustness_skips_other_lines() {
    let obj = Obj::from_lines(&lines(&[
        "# comment",
        "vn 0.0 0.0 1.0",
        "vt 0.5 0.5",
        "g group",
        "s off",
        "",
        "v 1 2 3   ",
        "v 1 2 3 4 5",
    ]))
    .unwrap();
    assert_eq!(obj.vertices.len(), 2);
    assert_eq!(obj.faces.len(), 0);
    assert_eq!(obj.vertices[0], Vert { x: SCALE, y: 2 * SCALE, z: 3 * SCALE });
    assert_eq!(obj.vertices[1], Vert { x: SCALE, y: 2 * SCALE, z: 3 * SCALE });
}

#[test]
fn invalid_vertex_line_mentions_y() {
    let err = Obj::from_lines(&lines(&["v 1.0 foo 0.0"])).unwrap_err();
    assert!(err.message().contains('y'));
    assert_eq!(err.message(), "invalid format for y");
}

#[test]
fn missing_coordinate() {
    let err = Obj::from_lines(&lines(&["v 1.0"])).unwrap_err();
    assert_eq!(err.message(), "failed to read y");
}

#[test]
fn missing_group() {
    let err = Obj::from_lines(&lines(&["f 1 2"])).unwrap_err();
    assert_eq!(err.message(), "failed to read z group");
}

#[test]
fn zero_index_is_rejected() {
    let err = Obj::from_lines(&lines(&["v 0 0 0", "f 0 1 1"])).unwrap_err();
    assert_eq!(err, ObjError::InvalidIndex(Axis::X));
    assert_eq!(err.message(), "invalid format for x vertex id");
}

#[test]
fn overflowing_index_is_rejected() {
    let err = Face::parse("99999999999999999999999 1 1").unwrap_err();
    assert_eq!(err.message(), "invalid format for x vertex id");
}

#[test]
fn negative_index_is_rejected() {
    let err = Face::parse("-1 2 3").unwrap_err();
    assert_eq!(err.message(), "invalid format for x vertex id");
}

#[test]
fn vertex_scalars_fixed_point() {
    let v = Vert::parse("0.5 -1 2.25").unwrap();
    assert_eq!(v.x, SCALE / 2);
    assert_eq!(v.y, -SCALE);
    assert_eq!(v.z, 2 * SCALE + SCALE / 4);
}

#[test]
fn vertex_scalar_forms() {
    let v = Vert::parse("+1. .5 0").unwrap();
    assert_eq!(v.x, SCALE);
    assert_eq!(v.y, SCALE / 2);
    assert_eq!(v.z, 0);
}

#[test]
fn vertex_scalar_truncates_long_fraction() {
    let v = Vert::parse("0.12345678 0 0").unwrap();
    assert_eq!(v.x, 123456);
}

#[test]
fn exponent_notation_is_a_format_error() {
    let err = Vert::parse("1e3 0 0").unwrap_err();
    assert_eq!(err.message(), "invalid format for x");
}

#[test]
fn non_finite_words_are_format_errors() {
    assert!(Vert::parse("inf 0 0").is_err());
    assert!(Vert::parse("nan 0 0").is_err());
    assert!(Vert::parse(". 0 0").is_err());
}

#[test]
fn face_groups_take_first_segment() {
    let f = Face::parse("1/4/5 2//3 3").unwrap();
    assert_eq!(f.vertices, (0, 1, 2));
}

#[test]
fn face_extra_groups_ignored() {
    let f = Face::parse("1 2 3 4 5").unwrap();
    assert_eq!(f.vertices, (0, 1, 2));
}

#[test]
fn first_error_aborts_load() {
    let err = Obj::from_lines(&lines(&["v 1.0", "v bad 0 0"])).unwrap_err();
    assert_eq!(err.message(), "failed to read y");
}

#[test]
fn tri_lines_three_edges() {
    let a = Vert { x: 0, y: 0, z: 0 };
    let b = Vert { x: 1, y: 0, z: 0 };
    let c = Vert { x: 0, y: 1, z: 0 };
    let tri = Tri(a, b, c);
    let ls = tri.lines();
    assert_eq!(ls.len(), 3);
    assert_eq!((ls[0].0, ls[0].1), (a, b));
    assert_eq!((ls[1].0, ls[1].1), (b, c));
    assert_eq!((ls[2].0, ls[2].1), (c, a));
}

#[test]
fn add_line_streams_statements() {
    let mut obj = Obj::new();
    assert!(obj.add_line("v 0 0 0").is_ok());
    assert!(obj.add_line("junk line").is_ok());
    assert!(obj.add_line("f 1 1 1").is_ok());
    assert_eq!(obj.vertices.len(), 1);
    assert_eq!(obj.faces.len(), 1);
    assert!(obj.add_line("v x y z").is_err());
    assert_eq!(obj.vertices.len(), 1);
}

#[test]
fn tokenize_splits_on_whitespace() {
    let ts = tiny::wavefront::tokenize("  a\tbc  d ");
    assert_eq!(ts, vec!["a".to_string(), "bc".to_string(), "d".to_string()]);
    assert!(tiny::wavefront::tokenize("   ").is_empty());
}

#[test]
fn parse_scalar_values() {
    assert_eq!(parse_scalar("1"), Some(SCALE));
    assert_eq!(parse_scalar("+0.000001"), Some(1));
    assert_eq!(parse_scalar("-0.0000009"), Some(0));
    assert_eq!(parse_scalar("-2.5"), Some(-2 * SCALE - SCALE / 2));
    assert_eq!(parse_scalar(""), None);
    assert_eq!(parse_scalar("1.2.3"), None);
    assert_eq!(parse_scalar("--1"), None);
    assert_eq!(parse_scalar("99999999999999999999999"), Some(tiny::wavefront::COORD_MAX));
}

#[test]
fn parse_index_values() {
    assert_eq!(parse_index("007"), Some(7));
    assert_eq!(parse_index("+12"), Some(12));
    assert_eq!(parse_index(""), None);
    assert_eq!(parse_index("1a"), None);
    assert_eq!(parse_index("-3"), None);
}
