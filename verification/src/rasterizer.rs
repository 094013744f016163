use vstd::prelude::*;

pub use crate::framebuffer::{Color, Framebuffer, Point};
pub use crate::line::{draw_closed_polyline, draw_closed_polyline_with_width, draw_line_bresenham};
pub use crate::scanline::fill_polygon_scanline;

use crate::framebuffer::{lemma_filled_pixels, lemma_paint_pixel, FrameView};
use crate::line::{pen_radius, polyline_region, thick_polyline_region};
use crate::scanline::{contour_seqs, fill_region};

verus! {

/// Width of the scene in pixels.
pub const WIDTH: usize = 800;

/// Height of the scene in pixels.
pub const HEIGHT: usize = 450;

/// Pen width of the hole's outline.
pub const HOLE_OUTLINE_WIDTH: i32 = 3;

/// Background colour of the scene.
pub open spec fn background_spec() -> Color {
    Color { r: 245, g: 245, b: 245, a: 255 }
}

/// Background colour of the scene.
pub fn background() -> (c: Color)
    ensures
        c == background_spec(),
{
    Color::new(245, 245, 245, 255)
}

/// Fill colour of polygon 1.
pub open spec fn polygon_1_fill_spec() -> Color {
    Color { r: 255, g: 155, b: 155, a: 255 }
}

/// Fill colour of polygon 1.
pub fn polygon_1_fill() -> (c: Color)
    ensures
        c == polygon_1_fill_spec(),
{
    Color::new(255, 155, 155, 255)
}

/// Outline colour of polygon 1.
pub open spec fn polygon_1_outline_spec() -> Color {
    Color { r: 150, g: 24, b: 24, a: 255 }
}

/// Outline colour of polygon 1.
pub fn polygon_1_outline() -> (c: Color)
    ensures
        c == polygon_1_outline_spec(),
{
    Color::new(150, 24, 24, 255)
}

/// Fill colour of polygon 2.
pub open spec fn polygon_2_fill_spec() -> Color {
    Color { r: 145, g: 218, b: 165, a: 255 }
}

/// Fill colour of polygon 2.
pub fn polygon_2_fill() -> (c: Color)
    ensures
        c == polygon_2_fill_spec(),
{
    Color::new(145, 218, 165, 255)
}

/// Outline colour of polygon 2.
pub open spec fn polygon_2_outline_spec() -> Color {
    Color { r: 24, g: 112, b: 51, a: 255 }
}

/// Outline colour of polygon 2.
pub fn polygon_2_outline() -> (c: Color)
    ensures
        c == polygon_2_outline_spec(),
{
    Color::new(24, 112, 51, 255)
}

/// Fill colour of polygon 3.
pub open spec fn polygon_3_fill_spec() -> Color {
    Color { r: 145, g: 186, b: 255, a: 255 }
}

/// Fill colour of polygon 3.
pub fn polygon_3_fill() -> (c: Color)
    ensures
        c == polygon_3_fill_spec(),
{
    Color::new(145, 186, 255, 255)
}

/// Outline colour of polygon 3.
pub open spec fn polygon_3_outline_spec() -> Color {
    Color { r: 22, g: 63, b: 145, a: 255 }
}

/// Outline colour of polygon 3.
pub fn polygon_3_outline() -> (c: Color)
    ensures
        c == polygon_3_outline_spec(),
{
    Color::new(22, 63, 145, 255)
}

/// Fill colour of polygon 4.
pub open spec fn polygon_4_fill_spec() -> Color {
    Color { r: 255, g: 218, b: 124, a: 255 }
}

/// Fill colour of polygon 4.
pub fn polygon_4_fill() -> (c: Color)
    ensures
        c == polygon_4_fill_spec(),
{
    Color::new(255, 218, 124, 255)
}

/// Outline colour of polygon 4.
pub open spec fn polygon_4_outline_spec() -> Color {
    Color { r: 154, g: 86, b: 12, a: 255 }
}

/// Outline colour of polygon 4.
pub fn polygon_4_outline() -> (c: Color)
    ensures
        c == polygon_4_outline_spec(),
{
    Color::new(154, 86, 12, 255)
}

/// Outline colour of the hole in polygon 4.
pub open spec fn hole_outline_spec() -> Color {
    Color { r: 64, g: 38, b: 8, a: 255 }
}

/// Outline colour of the hole in polygon 4.
pub fn hole_outline() -> (c: Color)
    ensures
        c == hole_outline_spec(),
{
    Color::new(64, 38, 8, 255)
}

/// The vertices of Polygon 1, in drawing order.
pub open spec fn polygon_1_points() -> Seq<Point> {
    seq![
        Point { x: 165, y: 380 },
        Point { x: 185, y: 360 },
        Point { x: 180, y: 330 },
        Point { x: 207, y: 345 },
        Point { x: 233, y: 330 },
        Point { x: 230, y: 360 },
        Point { x: 250, y: 380 },
        Point { x: 220, y: 385 },
        Point { x: 205, y: 410 },
        Point { x: 193, y: 383 },
    ]
}

/// The vertices of Polygon 1, in drawing order.
pub fn polygon_1() -> (points: Vec<Point>)
    ensures
        points@ == polygon_1_points(),
{
    let mut v: Vec<Point> = Vec::new();
    v.push(Point::new(165, 380));
    v.push(Point::new(185, 360));
    v.push(Point::new(180, 330));
    v.push(Point::new(207, 345));
    v.push(Point::new(233, 330));
    v.push(Point::new(230, 360));
    v.push(Point::new(250, 380));
    v.push(Point::new(220, 385));
    v.push(Point::new(205, 410));
    v.push(Point::new(193, 383));
    assert(v@ =~= polygon_1_points());
    v
}

/// The vertices of Polygon 2, in drawing order.
pub open spec fn polygon_2_points() -> Seq<Point> {
    seq![
        Point { x: 321, y: 335 },
        Point { x: 288, y: 286 },
        Point { x: 339, y: 251 },
        Point { x: 374, y: 302 },
    ]
}

/// The vertices of Polygon 2, in drawing order.
pub fn polygon_2() -> (points: Vec<Point>)
    ensures
        points@ == polygon_2_points(),
{
    let mut v: Vec<Point> = Vec::new();
    v.push(Point::new(321, 335));
    v.push(Point::new(288, 286));
    v.push(Point::new(339, 251));
    v.push(Point::new(374, 302));
    assert(v@ =~= polygon_2_points());
    v
}

/// The vertices of Polygon 3, in drawing order.
pub open spec fn polygon_3_points() -> Seq<Point> {
    seq![
        Point { x: 377, y: 249 },
        Point { x: 411, y: 197 },
        Point { x: 436, y: 249 },
    ]
}

/// The vertices of Polygon 3, in drawing order.
pub fn polygon_3() -> (points: Vec<Point>)
    ensures
        points@ == polygon_3_points(),
{
    let mut v: Vec<Point> = Vec::new();
    v.push(Point::new(377, 249));
    v.push(Point::new(411, 197));
    v.push(Point::new(436, 249));
    assert(v@ =~= polygon_3_points());
    v
}

/// The vertices of Polygon 4, in drawing order.
pub open spec fn polygon_4_points() -> Seq<Point> {
    seq![
        Point { x: 413, y: 177 },
        Point { x: 448, y: 159 },
        Point { x: 502, y: 88 },
        Point { x: 553, y: 53 },
        Point { x: 535, y: 36 },
        Point { x: 676, y: 37 },
        Point { x: 660, y: 52 },
        Point { x: 750, y: 145 },
        Point { x: 761, y: 179 },
        Point { x: 672, y: 192 },
        Point { x: 659, y: 214 },
        Point { x: 615, y: 214 },
        Point { x: 632, y: 230 },
        Point { x: 580, y: 230 },
        Point { x: 597, y: 215 },
        Point { x: 552, y: 214 },
        Point { x: 517, y: 144 },
        Point { x: 466, y: 180 },
    ]
}

/// The vertices of Polygon 4, in drawing order.
pub fn polygon_4() -> (points: Vec<Point>)
    ensures
        points@ == polygon_4_points(),
{
    let mut v: Vec<Point> = Vec::new();
    v.push(Point::new(413, 177));
    v.push(Point::new(448, 159));
    v.push(Point::new(502, 88));
    v.push(Point::new(553, 53));
    v.push(Point::new(535, 36));
    v.push(Point::new(676, 37));
    v.push(Point::new(660, 52));
    v.push(Point::new(750, 145));
    v.push(Point::new(761, 179));
    v.push(Point::new(672, 192));
    v.push(Point::new(659, 214));
    v.push(Point::new(615, 214));
    v.push(Point::new(632, 230));
    v.push(Point::new(580, 230));
    v.push(Point::new(597, 215));
    v.push(Point::new(552, 214));
    v.push(Point::new(517, 144));
    v.push(Point::new(466, 180));
    assert(v@ =~= polygon_4_points());
    v
}

/// The vertices of Polygon 5 (the hole in polygon 4), in drawing order.
pub open spec fn polygon_5_hole_points() -> Seq<Point> {
    seq![
        Point { x: 682, y: 175 },
        Point { x: 708, y: 120 },
        Point { x: 735, y: 148 },
        Point { x: 739, y: 170 },
    ]
}

/// The vertices of Polygon 5 (the hole in polygon 4), in drawing order.
pub fn polygon_5_hole() -> (points: Vec<Point>)
    ensures
        points@ == polygon_5_hole_points(),
{
    let mut v: Vec<Point> = Vec::new();
    v.push(Point::new(682, 175));
    v.push(Point::new(708, 120));
    v.push(Point::new(735, 148));
    v.push(Point::new(739, 170));
    assert(v@ =~= polygon_5_hole_points());
    v
}

/// The scene: polygons 1 to 4 filled (polygon 5 cut out of polygon 4 as a
/// hole) on the background, then every outline drawn on top, the hole's with
/// a pen three pixels wide.
pub open spec fn scene() -> FrameView {
    let w = WIDTH as int;
    let h = HEIGHT as int;
    FrameView::filled(WIDTH as nat, HEIGHT as nat, background_spec())
        .paint(fill_region(seq![polygon_1_points()], w, h), polygon_1_fill_spec())
        .paint(fill_region(seq![polygon_2_points()], w, h), polygon_2_fill_spec())
        .paint(fill_region(seq![polygon_3_points()], w, h), polygon_3_fill_spec())
        .paint(fill_region(seq![polygon_4_points(), polygon_5_hole_points()], w, h), polygon_4_fill_spec())
        .paint(polyline_region(polygon_1_points()), polygon_1_outline_spec())
        .paint(polyline_region(polygon_2_points()), polygon_2_outline_spec())
        .paint(polyline_region(polygon_3_points()), polygon_3_outline_spec())
        .paint(polyline_region(polygon_4_points()), polygon_4_outline_spec())
        .paint(thick_polyline_region(polygon_5_hole_points(), pen_radius(HOLE_OUTLINE_WIDTH as int)), hole_outline_spec())
}

/// The colour that the scene shows at an in-bounds pixel, layer by layer
/// from the top: the hole's thick outline in dark brown, then the outlines
/// of polygons 4, 3, 2 and 1 in their dark colours, then the fill of polygon 4
/// (with polygon 5 cut out by the even-odd rule), of polygons 3, 2 and 1 in
/// their light colours, and the background where no layer covers the pixel.
pub open spec fn scene_colour_at(x: int, y: int) -> Color {
    let w = WIDTH as int;
    let h = HEIGHT as int;
    if thick_polyline_region(polygon_5_hole_points(), 1)(x, y) {
        Color { r: 64, g: 38, b: 8, a: 255 }
    } else if polyline_region(polygon_4_points())(x, y) {
        Color { r: 154, g: 86, b: 12, a: 255 }
    } else if polyline_region(polygon_3_points())(x, y) {
        Color { r: 22, g: 63, b: 145, a: 255 }
    } else if polyline_region(polygon_2_points())(x, y) {
        Color { r: 24, g: 112, b: 51, a: 255 }
    } else if polyline_region(polygon_1_points())(x, y) {
        Color { r: 150, g: 24, b: 24, a: 255 }
    } else if fill_region(seq![polygon_4_points(), polygon_5_hole_points()], w, h)(x, y) {
        Color { r: 255, g: 218, b: 124, a: 255 }
    } else if fill_region(seq![polygon_3_points()], w, h)(x, y) {
        Color { r: 145, g: 186, b: 255, a: 255 }
    } else if fill_region(seq![polygon_2_points()], w, h)(x, y) {
        Color { r: 145, g: 218, b: 165, a: 255 }
    } else if fill_region(seq![polygon_1_points()], w, h)(x, y) {
        Color { r: 255, g: 155, b: 155, a: 255 }
    } else {
        Color { r: 245, g: 245, b: 245, a: 255 }
    }
}

/// The rendered scene is 800 by 450 pixels, and each pixel shows the colour
/// of the topmost layer that covers it: later drawings cover earlier ones, each
/// polygon's outline is in its own outline colour and its inside in its own
/// fill colour.
pub proof fn lemma_scene_layers(x: int, y: int)
    requires
        0 <= x < 800,
        0 <= y < 450,
    ensures
        scene().width == 800,
        scene().height == 450,
        scene().wf(),
        scene().pixel(x, y) == scene_colour_at(x, y),
{
    let w = WIDTH as int;
    let h = HEIGHT as int;
    let v0 = FrameView::filled(WIDTH as nat, HEIGHT as nat, background_spec());
    lemma_filled_pixels(WIDTH as nat, HEIGHT as nat, background_spec(), x, y);
    let v1 = v0.paint(fill_region(seq![polygon_1_points()], w, h), polygon_1_fill_spec());
    lemma_paint_pixel(v0, fill_region(seq![polygon_1_points()], w, h), polygon_1_fill_spec(), x, y);
    let v2 = v1.paint(fill_region(seq![polygon_2_points()], w, h), polygon_2_fill_spec());
    lemma_paint_pixel(v1, fill_region(seq![polygon_2_points()], w, h), polygon_2_fill_spec(), x, y);
    let v3 = v2.paint(fill_region(seq![polygon_3_points()], w, h), polygon_3_fill_spec());
    lemma_paint_pixel(v2, fill_region(seq![polygon_3_points()], w, h), polygon_3_fill_spec(), x, y);
    let f4 = fill_region(seq![polygon_4_points(), polygon_5_hole_points()], w, h);
    let v4 = v3.paint(f4, polygon_4_fill_spec());
    lemma_paint_pixel(v3, f4, polygon_4_fill_spec(), x, y);
    let v5 = v4.paint(polyline_region(polygon_1_points()), polygon_1_outline_spec());
    lemma_paint_pixel(v4, polyline_region(polygon_1_points()), polygon_1_outline_spec(), x, y);
    let v6 = v5.paint(polyline_region(polygon_2_points()), polygon_2_outline_spec());
    lemma_paint_pixel(v5, polyline_region(polygon_2_points()), polygon_2_outline_spec(), x, y);
    let v7 = v6.paint(polyline_region(polygon_3_points()), polygon_3_outline_spec());
    lemma_paint_pixel(v6, polyline_region(polygon_3_points()), polygon_3_outline_spec(), x, y);
    let v8 = v7.paint(polyline_region(polygon_4_points()), polygon_4_outline_spec());
    lemma_paint_pixel(v7, polyline_region(polygon_4_points()), polygon_4_outline_spec(), x, y);
    let hole = thick_polyline_region(polygon_5_hole_points(), pen_radius(HOLE_OUTLINE_WIDTH as int));
    assert(pen_radius(HOLE_OUTLINE_WIDTH as int) == 1);
    lemma_paint_pixel(v8, hole, hole_outline_spec(), x, y);
    assert(scene() == v8.paint(hole, hole_outline_spec()));
}

/// Renders the scene.
pub fn render_scene() -> (framebuffer: Framebuffer)
    ensures
        framebuffer@ == scene(),
        framebuffer@.wf(),
        framebuffer@.width == 800,
        framebuffer@.height == 450,
        forall|x: int, y: int|
            0 <= x < 800 && 0 <= y < 450 ==> #[trigger] framebuffer@.pixel(x, y) == scene_colour_at(
                x,
                y,
            ),
{
    proof {
        assert forall|x: int, y: int| 0 <= x < 800 && 0 <= y < 450 implies #[trigger] scene().pixel(
            x,
            y,
        ) == scene_colour_at(x, y) by {
            lemma_scene_layers(x, y);
        }
    }
    let mut framebuffer = Framebuffer::new(WIDTH, HEIGHT, background());
    let p1 = polygon_1();
    let p2 = polygon_2();
    let p3 = polygon_3();
    let p4 = polygon_4();
    let p5 = polygon_5_hole();
    let c1: [&[Point]; 1] = [p1.as_slice()];
    let c2: [&[Point]; 1] = [p2.as_slice()];
    let c3: [&[Point]; 1] = [p3.as_slice()];
    let c4: [&[Point]; 2] = [p4.as_slice(), p5.as_slice()];
    assert(contour_seqs(c1@) =~= seq![polygon_1_points()]);
    assert(contour_seqs(c2@) =~= seq![polygon_2_points()]);
    assert(contour_seqs(c3@) =~= seq![polygon_3_points()]);
    assert(contour_seqs(c4@) =~= seq![polygon_4_points(), polygon_5_hole_points()]);
    fill_polygon_scanline(&mut framebuffer, c1.as_slice(), polygon_1_fill());
    fill_polygon_scanline(&mut framebuffer, c2.as_slice(), polygon_2_fill());
    fill_polygon_scanline(&mut framebuffer, c3.as_slice(), polygon_3_fill());
    fill_polygon_scanline(&mut framebuffer, c4.as_slice(), polygon_4_fill());
    draw_closed_polyline(&mut framebuffer, p1.as_slice(), polygon_1_outline());
    draw_closed_polyline(&mut framebuffer, p2.as_slice(), polygon_2_outline());
    draw_closed_polyline(&mut framebuffer, p3.as_slice(), polygon_3_outline());
    draw_closed_polyline(&mut framebuffer, p4.as_slice(), polygon_4_outline());
    draw_closed_polyline_with_width(
        &mut framebuffer,
        p5.as_slice(),
        hole_outline(),
        HOLE_OUTLINE_WIDTH,
    );
    framebuffer
}

} // verus!
