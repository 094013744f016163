use lab1_poligono::framebuffer::{Color, Framebuffer, Point};
use lab1_poligono::scanline::{fill_polygon_scanline, vertical_bounds};

fn bg() -> Color {
    Color::new(0, 0, 0, 255)
}

fn paint() -> Color {
    Color::new(9, 99, 199, 255)
}

fn painted(fb: &Framebuffer) -> Vec<(i32, i32)> {
    let mut out = Vec::new();
    for y in 0..fb.height() as i32 {
        for x in 0..fb.width() as i32 {
            if fb.get_pixel(x, y) == Some(paint()) {
                out.push((x, y));
            }
        }
    }
    out
}

fn square(x0: i32, y0: i32, x1: i32, y1: i32) -> Vec<Point> {
    vec![Point::new(x0, y0), Point::new(x1, y0), Point::new(x1, y1), Point::new(x0, y1)]
}

#[test]
fn square_fills_its_half_open_interior() {
    let mut fb = Framebuffer::new(6, 6, bg());
    let sq = square(1, 1, 4, 4);
    fill_polygon_scanline(&mut fb, &[&sq], paint());
    let mut want = Vec::new();
    for y in 1..4 {
        for x in 1..4 {
            want.push((x, y));
        }
    }
    assert_eq!(painted(&fb), want);
}

#[test]
fn inner_contour_cuts_a_hole() {
    let mut fb = Framebuffer::new(8, 8, bg());
    let outer = square(0, 0, 6, 6);
    let hole = square(2, 2, 4, 4);
    fill_polygon_scanline(&mut fb, &[&outer, &hole], paint());
    let got = painted(&fb);
    assert_eq!(got.len(), 32);
    assert_eq!(fb.get_pixel(3, 3), Some(bg()));
    assert_eq!(fb.get_pixel(2, 2), Some(bg()));
    assert_eq!(fb.get_pixel(1, 1), Some(paint()));
    assert_eq!(fb.get_pixel(4, 4), Some(paint()));
}

#[test]
fn no_contours_paint_nothing() {
    let mut fb = Framebuffer::new(4, 4, bg());
    fill_polygon_scanline(&mut fb, &[], paint());
    let empty: [Point; 0] = [];
    fill_polygon_scanline(&mut fb, &[&empty, &empty], paint());
    assert!(painted(&fb).is_empty());
}

#[test]
fn horizontal_only_contour_paints_nothing() {
    let mut fb = Framebuffer::new(6, 6, bg());
    let flat = [Point::new(0, 2), Point::new(5, 2)];
    fill_polygon_scanline(&mut fb, &[&flat], paint());
    assert!(painted(&fb).is_empty());
}

#[test]
fn triangle_crossings_round_up() {
    let mut fb = Framebuffer::new(6, 4, bg());
    let tri = [Point::new(0, 0), Point::new(4, 2), Point::new(0, 2)];
    fill_polygon_scanline(&mut fb, &[&tri], paint());
    // row 0: crossings at x = 1 (ceil of 1.0) and x = 0 -> pixel 0
    // row 1: crossings at x = 3 (ceil of 3.0) and x = 0 -> pixels 0..3
    assert_eq!(painted(&fb), vec![(0, 0), (0, 1), (1, 1), (2, 1)]);
}

#[test]
fn exact_crossing_on_a_column_is_not_rounded_past_it() {
    // The edge from (0, 0) to (42, 7) meets the centre of row 4 at x = 27 exactly.
    let mut fb = Framebuffer::new(50, 8, bg());
    let tri = [Point::new(0, 0), Point::new(42, 7), Point::new(0, 7)];
    fill_polygon_scanline(&mut fb, &[&tri], paint());
    assert_eq!(fb.get_pixel(26, 4), Some(paint()));
    assert_eq!(fb.get_pixel(27, 4), Some(bg()));
}

#[test]
fn fill_is_clipped_to_the_framebuffer() {
    let mut fb = Framebuffer::new(4, 4, bg());
    let tri = [Point::new(-100, -100), Point::new(100, 2), Point::new(-100, 100)];
    fill_polygon_scanline(&mut fb, &[&tri], paint());
    assert_eq!(fb.pixels().len(), 16);
    assert_eq!(fb.get_pixel(0, 0), Some(paint()));
    assert_eq!(fb.get_pixel(3, 3), Some(paint()));
}

#[test]
fn vertical_bounds_of_contours() {
    let a = [Point::new(0, 5), Point::new(1, -2)];
    let b = [Point::new(7, 9)];
    let empty: [Point; 0] = [];
    assert_eq!(vertical_bounds(&[&a, &empty, &b]), Some((-2, 9)));
    assert_eq!(vertical_bounds(&[&empty]), None);
    assert_eq!(vertical_bounds(&[]), None);
}

#[test]
fn vertices_passed_through_are_counted_once() {
    let mut fb = Framebuffer::new(6, 6, bg());
    let diamond = [Point::new(2, 0), Point::new(4, 2), Point::new(2, 4), Point::new(0, 2)];
    fill_polygon_scanline(&mut fb, &[&diamond], paint());
    assert_eq!(
        painted(&fb),
        vec![(2, 0), (1, 1), (2, 1), (3, 1), (1, 2), (2, 2), (3, 2), (2, 3)]
    );
}

#[test]
fn fill_ignores_contour_order_and_start_point() {
    let outer = square(0, 0, 6, 6);
    let hole = square(2, 2, 4, 4);
    let mut a = Framebuffer::new(8, 8, bg());
    fill_polygon_scanline(&mut a, &[&outer, &hole], paint());
    let outer_rotated = [outer[2], outer[3], outer[0], outer[1]];
    let hole_rotated = [hole[1], hole[2], hole[3], hole[0]];
    let mut b = Framebuffer::new(8, 8, bg());
    fill_polygon_scanline(&mut b, &[&hole_rotated, &outer_rotated], paint());
    assert_eq!(a.pixels(), b.pixels());
}

#[test]
fn contour_listed_twice_paints_nothing() {
    let mut fb = Framebuffer::new(8, 8, bg());
    let tri = [Point::new(1, 1), Point::new(6, 3), Point::new(2, 6)];
    fill_polygon_scanline(&mut fb, &[&tri, &tri], paint());
    assert!(painted(&fb).is_empty());
}
