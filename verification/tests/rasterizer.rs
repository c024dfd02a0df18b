use tiny::canvas::Color;
use tiny::canvas::Image;
use tiny::raster::draw_line;

fn black() -> Color {
    Color { r: 0, g: 0, b: 0, a: 255 }
}

fn white() -> Color {
    Color { r: 255, g: 255, b: 255, a: 255 }
}

fn white_pixels(img: &Image) -> Vec<(u32, u32)> {
    let mut out = Vec::new();
    for y in 0..img.height() {
        for x in 0..img.width() {
            if img.get_pixel(x, y) == white() {
                out.push((x, y));
            }
        }
    }
    out
}

#[test]
fn horizontal_half_open() {
    let mut img = Image::new(10, 10, black());
    draw_line(2, 5, 7, 5, &mut img, white());
    let set = white_pixels(&img);
    assert_eq!(set, vec![(2, 5), (3, 5), (4, 5), (5, 5), (6, 5)]);
}

#[test]
fn steep_line() {
    let mut img = Image::new(10, 10, black());
    draw_line(5, 2, 5, 8, &mut img, white());
    let set = white_pixels(&img);
    assert_eq!(set, vec![(5, 2), (5, 3), (5, 4), (5, 5), (5, 6), (5, 7)]);
}

#[test]
fn reverse_direction() {
    let mut img = Image::new(10, 10, black());
    draw_line(7, 5, 2, 5, &mut img, white());
    let set = white_pixels(&img);
    assert_eq!(set, vec![(3, 5), (4, 5), (5, 5), (6, 5), (7, 5)]);
}

#[test]
fn clipping_at_image_corner() {
    // Endpoints exactly at (width, height) are allowed: the half-open march
    // and the bounds guard drop anything outside.
    let mut img = Image::new(10, 10, black());
    draw_line(0, 0, 10, 10, &mut img, white());
    let set = white_pixels(&img);
    let expected: Vec<(u32, u32)> = (0..10).map(|k| (k, k)).collect();
    assert_eq!(set, expected);
}

#[test]
fn clipping_far_outside() {
    let mut img = Image::new(4, 3, black());
    draw_line(100, 50, 200, 90, &mut img, white());
    assert!(white_pixels(&img).is_empty());
}

#[test]
fn containment_in_endpoint_box() {
    // Every plotted pixel stays in the bounding box of its endpoints.
    let mut img = Image::new(20, 20, black());
    draw_line(3, 4, 15, 9, &mut img, white());
    for (x, y) in white_pixels(&img) {
        assert!((3..=15).contains(&x));
        assert!((4..=9).contains(&y));
    }
}

#[test]
fn connectivity_eight_neighbors() {
    let mut img = Image::new(16, 16, black());
    draw_line(1, 2, 13, 7, &mut img, white());
    let set = white_pixels(&img);
    assert!(set.len() >= 2);
    for &(x, y) in &set {
        let has_neighbor = set.iter().any(|&(qx, qy)| {
            (qx, qy) != (x, y)
                && (qx as i64 - x as i64).abs() <= 1
                && (qy as i64 - y as i64).abs() <= 1
        });
        assert!(has_neighbor, "pixel ({x}, {y}) is isolated");
    }
}

#[test]
fn octant_symmetry_reflection() {
    let mut a = Image::new(16, 16, black());
    let mut b = Image::new(16, 16, black());
    draw_line(1, 2, 9, 5, &mut a, white());
    draw_line(2, 1, 5, 9, &mut b, white());
    let sa = white_pixels(&a);
    let mut sb: Vec<(u32, u32)> = white_pixels(&b).iter().map(|&(x, y)| (y, x)).collect();
    sb.sort();
    let mut sa = sa;
    sa.sort();
    assert_eq!(sa, sb);
}

#[test]
fn single_point_draws_nothing() {
    let mut img = Image::new(8, 8, black());
    draw_line(3, 3, 3, 3, &mut img, white());
    assert!(white_pixels(&img).is_empty());
}

#[test]
fn draw_preserves_other_pixels() {
    let mut img = Image::new(6, 6, Color { r: 9, g: 8, b: 7, a: 255 });
    draw_line(0, 0, 5, 0, &mut img, white());
    assert_eq!(img.get_pixel(3, 2), Color { r: 9, g: 8, b: 7, a: 255 });
    assert_eq!(img.get_pixel(3, 0), white());
}

#[test]
fn flip_vertical_odd_height() {
    let mut img = Image::new(2, 3, black());
    let mark = |v: u8| Color { r: v, g: 0, b: 0, a: 255 };
    for y in 0..3u32 {
        for x in 0..2u32 {
            img.put_pixel(x, y, mark((10 * y + x) as u8));
        }
    }
    img.flip_vertical();
    for y in 0..3u32 {
        for x in 0..2u32 {
            assert_eq!(img.get_pixel(x, y), mark((10 * (2 - y) + x) as u8));
        }
    }
}
