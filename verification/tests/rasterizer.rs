use lab1_poligono::encode::{bmp_bytes, png_bytes};
use lab1_poligono::rasterizer::{
    background, hole_outline, polygon_4_outline, draw_line_bresenham, fill_polygon_scanline, polygon_1_fill, polygon_1_outline,
    polygon_2_fill, polygon_3_fill, polygon_4_fill, render_scene, Framebuffer, Point,
};

#[test]
fn drawing_clips_pixels_outside_framebuffer() {
    let mut framebuffer = Framebuffer::new(4, 4, background());
    let huge_triangle = [
        Point::new(-100, -100),
        Point::new(100, 2),
        Point::new(-100, 100),
    ];

    fill_polygon_scanline(&mut framebuffer, &[&huge_triangle], polygon_1_fill());
    draw_line_bresenham(
        &mut framebuffer,
        Point::new(-50, -50),
        Point::new(50, 50),
        polygon_1_outline(),
    );

    assert_eq!(framebuffer.width(), 4);
    assert_eq!(framebuffer.height(), 4);
    assert_eq!(framebuffer.pixels().len(), 16);
}

#[test]
fn known_scene_points_have_expected_colors() {
    let framebuffer = render_scene();

    assert_eq!(framebuffer.get_pixel(205, 370), Some(polygon_1_fill()));
    assert_eq!(framebuffer.get_pixel(330, 295), Some(polygon_2_fill()));
    assert_eq!(framebuffer.get_pixel(411, 230), Some(polygon_3_fill()));
    assert_eq!(framebuffer.get_pixel(560, 100), Some(polygon_4_fill()));
    assert_eq!(framebuffer.get_pixel(715, 155), Some(background()));
    assert_eq!(framebuffer.get_pixel(20, 20), Some(background()));
}

#[test]
fn output_files_are_generated_with_expected_dimensions() {
    let framebuffer = render_scene();

    let png = png_bytes(&framebuffer);
    let bmp = bmp_bytes(&framebuffer);

    assert_eq!(&png[0..8], b"\x89PNG\r\n\x1a\n");
    assert_eq!(u32::from_be_bytes(png[16..20].try_into().unwrap()), 800);
    assert_eq!(u32::from_be_bytes(png[20..24].try_into().unwrap()), 450);

    assert_eq!(&bmp[0..2], b"BM");
    assert_eq!(i32::from_le_bytes(bmp[18..22].try_into().unwrap()), 800);
    assert_eq!(i32::from_le_bytes(bmp[22..26].try_into().unwrap()), -450);
}

#[test]
fn scene_has_the_canvas_size() {
    let framebuffer = render_scene();
    assert_eq!(framebuffer.width(), lab1_poligono::rasterizer::WIDTH);
    assert_eq!(framebuffer.height(), lab1_poligono::rasterizer::HEIGHT);
    assert_eq!(framebuffer.pixels().len(), 800 * 450);
}

#[test]
fn scene_outlines_are_drawn_over_fills() {
    let framebuffer = render_scene();
    assert_eq!(framebuffer.get_pixel(165, 380), Some(polygon_1_outline()));
    assert_eq!(framebuffer.get_pixel(413, 177), Some(polygon_4_outline()));
    assert_eq!(framebuffer.get_pixel(682, 175), Some(hole_outline()));
    assert_eq!(framebuffer.get_pixel(683, 176), Some(hole_outline()));
}
