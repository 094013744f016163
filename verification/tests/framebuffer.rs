use lab1_poligono::framebuffer::{Color, Framebuffer, Point};

fn red() -> Color {
    Color::new(255, 0, 0, 255)
}

fn grey() -> Color {
    Color::new(10, 20, 30, 40)
}

#[test]
fn new_framebuffer_is_filled_with_background() {
    let fb = Framebuffer::new(3, 2, grey());
    assert_eq!(fb.width(), 3);
    assert_eq!(fb.height(), 2);
    assert_eq!(fb.pixels().len(), 6);
    for y in 0..2 {
        for x in 0..3 {
            assert_eq!(fb.get_pixel(x, y), Some(grey()));
        }
    }
}

#[test]
fn set_then_get_reads_back_the_colour() {
    let mut fb = Framebuffer::new(4, 3, grey());
    fb.set_pixel(2, 1, red());
    assert_eq!(fb.get_pixel(2, 1), Some(red()));
    assert_eq!(fb.get_pixel(1, 2), Some(grey()));
    assert_eq!(fb.get_pixel(1, 1), Some(grey()));
    assert_eq!(fb.pixels()[1 * 4 + 2], red());
}

#[test]
fn set_pixel_outside_is_ignored() {
    let mut fb = Framebuffer::new(2, 2, grey());
    fb.set_pixel(-1, 0, red());
    fb.set_pixel(0, -1, red());
    fb.set_pixel(2, 0, red());
    fb.set_pixel(0, 2, red());
    fb.set_pixel(i32::MIN, i32::MAX, red());
    assert!(fb.pixels().iter().all(|p| *p == grey()));
    assert_eq!(fb.pixels().len(), 4);
}

#[test]
fn get_pixel_outside_is_none() {
    let fb = Framebuffer::new(2, 2, grey());
    assert_eq!(fb.get_pixel(-1, 0), None);
    assert_eq!(fb.get_pixel(0, -1), None);
    assert_eq!(fb.get_pixel(2, 0), None);
    assert_eq!(fb.get_pixel(0, 2), None);
}

#[test]
fn empty_framebuffer_has_no_pixels() {
    let fb = Framebuffer::new(0, 5, grey());
    assert_eq!(fb.pixels().len(), 0);
    assert_eq!(fb.get_pixel(0, 0), None);
    assert_eq!(fb.as_rgba8(), Vec::<u8>::new());
}

#[test]
fn rgba_bytes_are_four_per_pixel_in_order() {
    let mut fb = Framebuffer::new(2, 1, grey());
    fb.set_pixel(1, 0, Color::new(1, 2, 3, 4));
    assert_eq!(fb.as_rgba8(), vec![10, 20, 30, 40, 1, 2, 3, 4]);
}

#[test]
fn point_and_color_constructors_keep_fields() {
    let p = Point::new(-3, 7);
    assert_eq!((p.x, p.y), (-3, 7));
    let c = Color::new(1, 2, 3, 4);
    assert_eq!((c.r, c.g, c.b, c.a), (1, 2, 3, 4));
}
