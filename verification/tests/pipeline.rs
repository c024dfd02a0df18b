use tiny::canvas::Color;
use tiny::render::faces_ok;
use tiny::render::project;
use tiny::render::render_obj;
use tiny::render::verts_ok;
use tiny::wavefront::Obj;
use tiny::wavefront::COORD_MAX;
use tiny::wavefront::SCALE;

fn black() -> Color {
    Color { r: 0, g: 0, b: 0, a: 255 }
}

fn white() -> Color {
    Color { r: 255, g: 255, b: 255, a: 255 }
}

fn lines(ls: &[&str]) -> Vec<String> {
    ls.iter().map(|s| s.to_string()).collect()
}

#[test]
fn empty_mesh_renders_black() {
    let obj = Obj::from_lines(&lines(&["# only a comment"])).unwrap();
    let img = render_obj(&obj, 1000, 1000);
    for y in 0..1000 {
        for x in 0..1000 {
            assert_eq!(img.get_pixel(x, y), black());
        }
    }
}

#[test]
fn single_edge_diagonal() {
    let obj = Obj::from_lines(&lines(&["v -1 -1 0", "v 1 1 0", "v 0 0 0", "f 1 2 3"])).unwrap();
    assert!(verts_ok(&obj));
    assert!(faces_ok(&obj));
    let img = render_obj(&obj, 10, 10);
    // The three edges together paint the main diagonal; the vertical flip
    // turns pixel (k, k) into (k, 9 - k).
    for y in 0..10u32 {
        for x in 0..10u32 {
            let expected = if x == 9 - y { white() } else { black() };
            assert_eq!(img.get_pixel(x, y), expected, "at ({x}, {y})");
        }
    }
}

#[test]
fn projection_of_unit_range() {
    // (v/SCALE + 1) * dim / 2, truncated.
    assert_eq!(project(0, 10), 5);
    assert_eq!(project(-SCALE, 10), 0);
    assert_eq!(project(SCALE, 10), 10);
    assert_eq!(project(-2 * SCALE, 10), 0);
    assert_eq!(project(SCALE / 2, 100), 75);
    assert_eq!(project(COORD_MAX, 10), u32::MAX);
}

#[test]
fn faces_ok_rejects_dangling_index() {
    let obj = Obj::from_lines(&lines(&["v 0 0 0", "f 1 1 2"])).unwrap();
    assert!(!faces_ok(&obj));
}

#[test]
fn render_flips_vertically() {
    // A horizontal edge near the model's bottom (y = -1 maps to pixel row 0)
    // must appear near the image's bottom row after the flip.
    let obj = Obj::from_lines(&lines(&["v -1 -1 0", "v 1 -1 0", "v -1 -1 0", "f 1 2 3"])).unwrap();
    let img = render_obj(&obj, 10, 10);
    let mut bottom_white = 0;
    for x in 0..10 {
        if img.get_pixel(x, 9) == white() {
            bottom_white += 1;
        }
    }
    assert!(bottom_white > 0);
    for x in 0..10 {
        assert_eq!(img.get_pixel(x, 0), black());
    }
}
