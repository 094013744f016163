use lab1_poligono::framebuffer::{Color, Framebuffer, Point};
use lab1_poligono::line::{
    contour_edges, draw_closed_polyline, draw_closed_polyline_with_width, draw_line_bresenham,
};

fn bg() -> Color {
    Color::new(0, 0, 0, 255)
}

fn ink() -> Color {
    Color::new(200, 100, 50, 255)
}

fn inked(fb: &Framebuffer) -> Vec<(i32, i32)> {
    let mut out = Vec::new();
    for y in 0..fb.height() as i32 {
        for x in 0..fb.width() as i32 {
            if fb.get_pixel(x, y) == Some(ink()) {
                out.push((x, y));
            }
        }
    }
    out
}

#[test]
fn bresenham_shallow_line_pixels() {
    let mut fb = Framebuffer::new(8, 8, bg());
    draw_line_bresenham(&mut fb, Point::new(0, 0), Point::new(5, 2), ink());
    assert_eq!(inked(&fb), vec![(0, 0), (1, 0), (2, 1), (3, 1), (4, 2), (5, 2)]);
}

#[test]
fn bresenham_reversed_steep_line_pixels() {
    let mut fb = Framebuffer::new(8, 8, bg());
    draw_line_bresenham(&mut fb, Point::new(2, 5), Point::new(0, 0), ink());
    let mut got = inked(&fb);
    got.sort();
    let mut want = vec![(2, 5), (2, 4), (1, 3), (1, 2), (0, 1), (0, 0)];
    want.sort();
    assert_eq!(got, want);
}

#[test]
fn bresenham_single_point() {
    let mut fb = Framebuffer::new(8, 8, bg());
    draw_line_bresenham(&mut fb, Point::new(3, 3), Point::new(3, 3), ink());
    assert_eq!(inked(&fb), vec![(3, 3)]);
}

#[test]
fn bresenham_line_count_is_longer_axis_plus_one() {
    let mut fb = Framebuffer::new(20, 20, bg());
    draw_line_bresenham(&mut fb, Point::new(1, 2), Point::new(17, 9), ink());
    let got = inked(&fb);
    assert_eq!(got.len(), 17);
    assert!(got.contains(&(1, 2)));
    assert!(got.contains(&(17, 9)));
}

#[test]
fn bresenham_clips_outside_pixels() {
    let mut fb = Framebuffer::new(4, 4, bg());
    draw_line_bresenham(&mut fb, Point::new(-50, -50), Point::new(50, 50), ink());
    assert_eq!(inked(&fb), vec![(0, 0), (1, 1), (2, 2), (3, 3)]);
}

#[test]
fn contour_edges_close_the_ring() {
    let pts = [Point::new(0, 0), Point::new(3, 0), Point::new(3, 2)];
    let edges = contour_edges(&pts);
    assert_eq!(
        edges,
        vec![(pts[0], pts[1]), (pts[1], pts[2]), (pts[2], pts[0])]
    );
    assert_eq!(contour_edges(&[]), vec![]);
    let single = [Point::new(4, 4)];
    assert_eq!(contour_edges(&single), vec![(single[0], single[0])]);
}

#[test]
fn polyline_draws_every_edge_and_vertex() {
    let mut fb = Framebuffer::new(6, 6, bg());
    let pts = [Point::new(1, 1), Point::new(4, 1), Point::new(4, 4), Point::new(1, 4)];
    draw_closed_polyline(&mut fb, &pts, ink());
    let got = inked(&fb);
    assert_eq!(got.len(), 12);
    for p in pts.iter() {
        assert!(got.contains(&(p.x, p.y)));
    }
    assert_eq!(fb.get_pixel(2, 2), Some(bg()));
}

#[test]
fn thin_pen_draws_the_plain_outline() {
    let pts = [Point::new(1, 1), Point::new(6, 2), Point::new(3, 6)];
    let mut plain = Framebuffer::new(8, 8, bg());
    draw_closed_polyline(&mut plain, &pts, ink());
    for width in [-3, 0, 1, 2] {
        let mut thick = Framebuffer::new(8, 8, bg());
        draw_closed_polyline_with_width(&mut thick, &pts, ink(), width);
        assert_eq!(thick.pixels(), plain.pixels());
    }
}

#[test]
fn wide_pen_covers_the_shifted_lines() {
    let pts = [Point::new(2, 2), Point::new(2, 2)];
    let mut fb = Framebuffer::new(6, 6, bg());
    draw_closed_polyline_with_width(&mut fb, &pts, ink(), 3);
    let got = inked(&fb);
    assert_eq!(got.len(), 9);
    for y in 1..=3 {
        for x in 1..=3 {
            assert!(got.contains(&(x, y)));
        }
    }
}

#[test]
fn outline_ignores_start_point() {
    let pts = [Point::new(1, 1), Point::new(6, 2), Point::new(5, 6), Point::new(2, 5)];
    let rotated = [pts[2], pts[3], pts[0], pts[1]];
    let mut a = Framebuffer::new(8, 8, bg());
    draw_closed_polyline(&mut a, &pts, ink());
    let mut b = Framebuffer::new(8, 8, bg());
    draw_closed_polyline(&mut b, &rotated, ink());
    assert_eq!(a.pixels(), b.pixels());
}

#[test]
fn wide_pen_is_the_shifted_plain_outlines() {
    let pts = [Point::new(3, 3), Point::new(9, 4), Point::new(6, 9)];
    let mut thick = Framebuffer::new(14, 14, bg());
    draw_closed_polyline_with_width(&mut thick, &pts, ink(), 3);
    let mut union = Framebuffer::new(14, 14, bg());
    for oy in -1..=1 {
        for ox in -1..=1 {
            let moved: Vec<Point> = pts.iter().map(|p| Point::new(p.x + ox, p.y + oy)).collect();
            draw_closed_polyline(&mut union, &moved, ink());
        }
    }
    assert_eq!(thick.pixels(), union.pixels());
    let mut four = Framebuffer::new(14, 14, bg());
    draw_closed_polyline_with_width(&mut four, &pts, ink(), 4);
    assert_eq!(four.pixels(), thick.pixels());
}
