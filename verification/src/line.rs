use vstd::prelude::*;

use crate::framebuffer::{
    FrameView,
    lemma_paint_extend, lemma_paint_nothing, lemma_paint_push, lemma_paint_union_empty, seq_region, union_upto, Color, Framebuffer, Point,
};

verus! {

pub open spec fn abs(v: int) -> int {
    if v < 0 {
        -v
    } else {
        v
    }
}

/// The unit step that moves from `from` towards `to` (`-1` when they are equal).
pub open spec fn step_towards(from: int, to: int) -> int {
    if from < to {
        1
    } else {
        -1
    }
}

/// The points that the error-term line walk visits from `(x, y)`, in order: it
/// plots the current point, stops at `(x1, y1)`, and otherwise steps in x when
/// `2 * err >= dy` and in y when `2 * err <= dx`, both tests on the error
/// before the step. At most `fuel` points are listed.
pub open spec fn line_walk(
    x: int,
    y: int,
    err: int,
    x1: int,
    y1: int,
    dx: int,
    dy: int,
    sx: int,
    sy: int,
    fuel: nat,
) -> Seq<(int, int)>
    decreases fuel,
{
    if fuel == 0 {
        seq![]
    } else if x == x1 && y == y1 {
        seq![(x, y)]
    } else {
        let e2 = 2 * err;
        let err_x = if e2 >= dy {
            err + dy
        } else {
            err
        };
        let nx = if e2 >= dy {
            x + sx
        } else {
            x
        };
        let err_y = if e2 <= dx {
            err_x + dx
        } else {
            err_x
        };
        let ny = if e2 <= dx {
            y + sy
        } else {
            y
        };
        seq![(x, y)] + line_walk(nx, ny, err_y, x1, y1, dx, dy, sx, sy, (fuel - 1) as nat)
    }
}

/// The points of the Bresenham line from `(x0, y0)` to `(x1, y1)`, in the
/// order they are drawn.
pub open spec fn line_points(x0: int, y0: int, x1: int, y1: int) -> Seq<(int, int)> {
    let dx = abs(x1 - x0);
    let dy = -abs(y1 - y0);
    line_walk(
        x0,
        y0,
        dx + dy,
        x1,
        y1,
        dx,
        dy,
        step_towards(x0, x1),
        step_towards(y0, y1),
        (dx - dy + 1) as nat,
    )
}

/// The pixels of the Bresenham line from `(x0, y0)` to `(x1, y1)`.
pub open spec fn line_region(x0: int, y0: int, x1: int, y1: int) -> spec_fn(int, int) -> bool {
    seq_region(line_points(x0, y0, x1, y1))
}

/// The index of the point that follows point `i` on a closed contour of `n` points.
pub open spec fn next_index(i: int, n: int) -> int {
    if i + 1 < n {
        i + 1
    } else {
        0
    }
}

/// Edge `i` of a closed contour joins point `i` to the next point, the last
/// point joining back to the first.
pub open spec fn edge_at(points: Seq<Point>, i: int) -> (Point, Point) {
    (points[i], points[next_index(i, points.len() as int)])
}

/// Whether `(x, y)` lies on the line from `a` to `b` shifted by `(ox, oy)`.
pub open spec fn on_shifted_line(a: Point, b: Point, ox: int, oy: int, x: int, y: int) -> bool {
    line_points(a.x + ox, a.y + oy, b.x + ox, b.y + oy).contains((x, y))
}

/// The lines from `a` to `b` shifted by `(ox, oy)`, indexed by `ox`.
pub open spec fn shifts_in_row(a: Point, b: Point, oy: int) -> spec_fn(int, int, int) -> bool {
    |ox: int, x: int, y: int| on_shifted_line(a, b, ox, oy, x, y)
}

/// The rows of shifts of half-side `r`, indexed by `oy`.
pub open spec fn shift_rows(a: Point, b: Point, r: int) -> spec_fn(int, int, int) -> bool {
    |oy: int, x: int, y: int| union_upto(shifts_in_row(a, b, oy), -r, r + 1)(x, y)
}

/// The line from `a` to `b` drawn with every shift in the square of half-side `r`.
pub open spec fn thick_line_region(a: Point, b: Point, r: int) -> spec_fn(int, int) -> bool {
    union_upto(shift_rows(a, b, r), -r, r + 1)
}

/// The thick line of edge `i` of a closed contour, indexed by `i`.
pub open spec fn thick_edges(points: Seq<Point>, r: int) -> spec_fn(int, int, int) -> bool {
    |i: int, x: int, y: int| thick_line_region(edge_at(points, i).0, edge_at(points, i).1, r)(x, y)
}

/// The line of edge `i` of a closed contour, indexed by `i`.
pub open spec fn plain_edges(points: Seq<Point>) -> spec_fn(int, int, int) -> bool {
    |i: int, x: int, y: int| on_shifted_line(edge_at(points, i).0, edge_at(points, i).1, 0, 0, x, y)
}

/// The outline of a closed contour: the Bresenham lines of all its edges.
pub open spec fn polyline_region(points: Seq<Point>) -> spec_fn(int, int) -> bool {
    union_upto(plain_edges(points), 0, points.len() as int)
}

/// The outline of a closed contour drawn with every shift of half-side `r`.
pub open spec fn thick_polyline_region(points: Seq<Point>, r: int) -> spec_fn(int, int) -> bool {
    union_upto(thick_edges(points, r), 0, points.len() as int)
}

/// The shift half-side used for a pen of the given width.
pub open spec fn pen_radius(width: int) -> int {
    ((if width > 1 {
        width
    } else {
        1
    }) - 1) / 2
}

/// A coordinate small enough that line arithmetic on it cannot overflow.
pub open spec fn coord_ok(v: int) -> bool {
    -0x100_0000_0000 <= v <= 0x100_0000_0000
}

/// The edges of a closed contour: point `i` to point `i + 1`, and the last
/// point back to the first.
pub fn contour_edges(points: &[Point]) -> (edges: Vec<(Point, Point)>)
    ensures
        edges@.len() == points@.len(),
        forall|i: int| 0 <= i < points@.len() ==> #[trigger] edges@[i] == edge_at(points@, i),
{
    let n = points.len();
    let mut edges: Vec<(Point, Point)> = Vec::new();
    let mut i: usize = 0;
    while i < n
        invariant
            n == points@.len(),
            i <= n,
            edges@.len() == i,
            forall|k: int| 0 <= k < i ==> #[trigger] edges@[k] == edge_at(points@, k),
        decreases n - i,
    {
        let next = if i + 1 < n {
            i + 1
        } else {
            0
        };
        edges.push((points[i], points[next]));
        i += 1;
    }
    edges
}

/// Draws the Bresenham line between two points given with wide coordinates.
fn draw_line(fb: &mut Framebuffer, x0: i64, y0: i64, x1: i64, y1: i64, color: Color)
    requires
        coord_ok(x0 as int),
        coord_ok(y0 as int),
        coord_ok(x1 as int),
        coord_ok(y1 as int),
    ensures
        final(fb)@ == old(fb)@.paint(line_region(x0 as int, y0 as int, x1 as int, y1 as int), color),
        final(fb)@.wf(),
{
    proof {
        use_type_invariant(&*fb);
    }
    let dx: i64 = if x1 >= x0 {
        x1 - x0
    } else {
        x0 - x1
    };
    let sx: i64 = if x0 < x1 {
        1
    } else {
        -1
    };
    let dy: i64 = if y1 >= y0 {
        y0 - y1
    } else {
        y1 - y0
    };
    let sy: i64 = if y0 < y1 {
        1
    } else {
        -1
    };
    let mut err: i64 = dx + dy;
    let mut x: i64 = x0;
    let mut y: i64 = y0;
    let total: i64 = dx - dy + 1;
    let mut fuel: i64 = total;
    let ghost start = fb@;
    let ghost pts = line_points(x0 as int, y0 as int, x1 as int, y1 as int);
    let ghost mut done: Seq<(int, int)> = seq![];
    assert(done + line_walk(
        x as int,
        y as int,
        err as int,
        x1 as int,
        y1 as int,
        dx as int,
        dy as int,
        sx as int,
        sy as int,
        fuel as nat,
    ) =~= pts);
    proof {
        lemma_paint_nothing(start, seq_region(done), color);
    }
    loop
        invariant_except_break
            start.wf(),
            fb@.wf(),
            fb@ == start.paint(seq_region(done), color),
            done + line_walk(
                x as int,
                y as int,
                err as int,
                x1 as int,
                y1 as int,
                dx as int,
                dy as int,
                sx as int,
                sy as int,
                fuel as nat,
            ) == pts,
            pts == line_points(x0 as int, y0 as int, x1 as int, y1 as int),
            dx == abs(x1 - x0),
            dy == -abs(y1 - y0),
            sx == step_towards(x0 as int, x1 as int),
            sy == step_towards(y0 as int, y1 as int),
            total == dx - dy + 1,
            0 <= fuel <= total,
            2 * dy <= err <= 2 * dx,
            abs(x - x0) <= total - fuel,
            abs(y - y0) <= total - fuel,
            coord_ok(x0 as int),
            coord_ok(y0 as int),
            coord_ok(x1 as int),
            coord_ok(y1 as int),
        ensures
            fb@ == start.paint(seq_region(pts), color),
            fb@.wf(),
        decreases fuel,
    {
        if fuel == 0 {
            assert(done =~= pts);
            break ;
        }
        let ghost before = fb@;
        fb.plot(x, y, color);
        proof {
            lemma_paint_push(start, done, x as int, y as int, color);
            done = done.push((x as int, y as int));
        }
        if x == x1 && y == y1 {
            assert(done =~= pts);
            break ;
        }
        let ghost old_done = done;
        let e2 = 2 * err;
        if e2 >= dy {
            err = err + dy;
            x = x + sx;
        }
        if e2 <= dx {
            err = err + dx;
            y = y + sy;
        }
        fuel = fuel - 1;
        proof {
            assert(done + line_walk(
                x as int,
                y as int,
                err as int,
                x1 as int,
                y1 as int,
                dx as int,
                dy as int,
                sx as int,
                sy as int,
                fuel as nat,
            ) =~= pts);
        }
    }
    proof {
        assert(line_region(x0 as int, y0 as int, x1 as int, y1 as int) == seq_region(pts));
    }
}

/// Draws the Bresenham line from `start` to `end`, both endpoints included;
/// pixels outside the framebuffer are skipped.
pub fn draw_line_bresenham(framebuffer: &mut Framebuffer, start: Point, end: Point, color: Color)
    ensures
        final(framebuffer)@ == old(framebuffer)@.paint(
            line_region(start.x as int, start.y as int, end.x as int, end.y as int),
            color,
        ),
        final(framebuffer)@.wf(),
{
    proof {
        use_type_invariant(&*framebuffer);
    }
    draw_line(framebuffer, start.x as i64, start.y as i64, end.x as i64, end.y as i64, color);
}

/// Draws the outline of a closed contour: the Bresenham line of every edge,
/// the last point joined back to the first.
pub fn draw_closed_polyline(framebuffer: &mut Framebuffer, points: &[Point], color: Color)
    ensures
        final(framebuffer)@ == old(framebuffer)@.paint(polyline_region(points@), color),
        final(framebuffer)@.wf(),
{
    proof {
        use_type_invariant(&*framebuffer);
    }
    let edges = contour_edges(points);
    let n = edges.len();
    let ghost start = framebuffer@;
    proof {
        lemma_paint_union_empty(start, plain_edges(points@), 0, color);
    }
    let mut i: usize = 0;
    while i < n
        invariant
            start.wf(),
            framebuffer@.wf(),
            n == points@.len(),
            edges@.len() == n,
            forall|k: int| 0 <= k < n ==> #[trigger] edges@[k] == edge_at(points@, k),
            i <= n,
            framebuffer@ == start.paint(union_upto(plain_edges(points@), 0, i as int), color),
        decreases n - i,
    {
        let (a, b) = edges[i];
        draw_line_bresenham(framebuffer, a, b, color);
        proof {
            assert(edges@[i as int] == edge_at(points@, i as int));
            lemma_paint_extend(
                start,
                plain_edges(points@),
                0,
                i as int,
                line_region(a.x as int, a.y as int, b.x as int, b.y as int),
                color,
            );
        }
        i += 1;
    }
}

/// Draws the shifted copies of the line from `a` to `b` for one vertical
/// shift `oy` and every horizontal shift in `-r..=r`.
fn draw_shift_row(fb: &mut Framebuffer, a: Point, b: Point, oy: i64, r: i64, color: Color)
    requires
        0 <= r <= 0x4000_0000,
        -r <= oy <= r,
    ensures
        final(fb)@ == old(fb)@.paint(union_upto(shifts_in_row(a, b, oy as int), -r, r + 1), color),
        final(fb)@.wf(),
{
    proof {
        use_type_invariant(&*fb);
    }
    let ghost start = fb@;
    proof {
        lemma_paint_union_empty(start, shifts_in_row(a, b, oy as int), -r, color);
    }
    let mut ox: i64 = -r;
    while ox <= r
        invariant
            start.wf(),
            fb@.wf(),
            0 <= r <= 0x4000_0000,
            -r <= oy <= r,
            -r <= ox <= r + 1,
            fb@ == start.paint(union_upto(shifts_in_row(a, b, oy as int), -r, ox as int), color),
        decreases r + 1 - ox,
    {
        draw_line(
            fb,
            a.x as i64 + ox,
            a.y as i64 + oy,
            b.x as i64 + ox,
            b.y as i64 + oy,
            color,
        );
        proof {
            lemma_paint_extend(
                start,
                shifts_in_row(a, b, oy as int),
                -r,
                ox as int,
                line_region(a.x + ox, a.y + oy, b.x + ox, b.y + oy),
                color,
            );
        }
        ox += 1;
    }
}

/// Draws the line from `a` to `b` with every shift in the square of half-side `r`.
fn draw_thick_line(fb: &mut Framebuffer, a: Point, b: Point, r: i64, color: Color)
    requires
        0 <= r <= 0x4000_0000,
    ensures
        final(fb)@ == old(fb)@.paint(thick_line_region(a, b, r as int), color),
        final(fb)@.wf(),
{
    proof {
        use_type_invariant(&*fb);
    }
    let ghost start = fb@;
    proof {
        lemma_paint_union_empty(start, shift_rows(a, b, r as int), -r, color);
    }
    let mut oy: i64 = -r;
    while oy <= r
        invariant
            start.wf(),
            fb@.wf(),
            0 <= r <= 0x4000_0000,
            -r <= oy <= r + 1,
            fb@ == start.paint(union_upto(shift_rows(a, b, r as int), -r, oy as int), color),
        decreases r + 1 - oy,
    {
        draw_shift_row(fb, a, b, oy, r, color);
        proof {
            lemma_paint_extend(
                start,
                shift_rows(a, b, r as int),
                -r,
                oy as int,
                union_upto(shifts_in_row(a, b, oy as int), -r, r + 1),
                color,
            );
        }
        oy += 1;
    }
}

/// Draws the outline of a closed contour with a square pen: every edge is
/// drawn once for each shift `(ox, oy)` with both components in
/// `-radius..=radius`, where `radius = (max(width, 1) - 1) / 2`.
pub fn draw_closed_polyline_with_width(
    framebuffer: &mut Framebuffer,
    points: &[Point],
    color: Color,
    width: i32,
)
    ensures
        final(framebuffer)@ == old(framebuffer)@.paint(
            thick_polyline_region(points@, pen_radius(width as int)),
            color,
        ),
        final(framebuffer)@.wf(),
{
    proof {
        use_type_invariant(&*framebuffer);
    }
    let pen: i32 = if width > 1 {
        width
    } else {
        1
    };
    let radius: i64 = ((pen - 1) / 2) as i64;
    assert(radius == pen_radius(width as int));
    let edges = contour_edges(points);
    let n = edges.len();
    let ghost start = framebuffer@;
    proof {
        lemma_paint_union_empty(start, thick_edges(points@, radius as int), 0, color);
    }
    let mut i: usize = 0;
    while i < n
        invariant
            start.wf(),
            framebuffer@.wf(),
            n == points@.len(),
            edges@.len() == n,
            forall|k: int| 0 <= k < n ==> #[trigger] edges@[k] == edge_at(points@, k),
            i <= n,
            0 <= radius <= 0x4000_0000,
            framebuffer@ == start.paint(
                union_upto(thick_edges(points@, radius as int), 0, i as int),
                color,
            ),
        decreases n - i,
    {
        let (a, b) = edges[i];
        draw_thick_line(framebuffer, a, b, radius, color);
        proof {
            assert(edges@[i as int] == edge_at(points@, i as int));
            lemma_paint_extend(
                start,
                thick_edges(points@, radius as int),
                0,
                i as int,
                thick_line_region(a, b, radius as int),
                color,
            );
        }
        i += 1;
    }
}

pub open spec fn max(a: int, b: int) -> int {
    if a >= b {
        a
    } else {
        b
    }
}

/// Two points are 8-neighbours: distinct, and at most one step apart on each axis.
pub open spec fn adjacent(p: (int, int), q: (int, int)) -> bool {
    p != q && -1 <= q.0 - p.0 <= 1 && -1 <= q.1 - p.1 <= 1
}

/// The decisions of one walk step, from the remaining distances `rx`, `ry`
/// and the scaled deviation `e = DX * ry - DY * rx` from the ideal line.
proof fn lemma_step_decisions(big_dx: int, big_dy: int, rx: int, ry: int, e: int)
    requires
        0 <= rx <= big_dx,
        0 <= ry <= big_dy,
        rx > 0 || ry > 0,
        e == big_dx * ry - big_dy * rx,
        -max(big_dx, big_dy) <= 2 * e <= max(big_dx, big_dy),
    ensures
        ({
            let step_x = 2 * e <= 2 * big_dx - big_dy;
            let step_y = 2 * e >= big_dx - 2 * big_dy;
            let e2 = e + (if step_x {
                big_dy
            } else {
                0
            }) - (if step_y {
                big_dx
            } else {
                0
            });
            &&& step_x ==> rx > 0
            &&& step_y ==> ry > 0
            &&& rx > ry ==> step_x
            &&& ry > rx ==> step_y
            &&& rx == ry ==> step_x && step_y
            &&& -max(big_dx, big_dy) <= 2 * e2 <= max(big_dx, big_dy)
        }),
{
    let m = max(big_dx, big_dy);
    if rx == 0 {
        assert(e == big_dx * ry);
        assert(big_dx * ry >= big_dx) by (nonlinear_arith)
            requires
                ry >= 1,
                big_dx >= 0,
        ;
    }
    if ry == 0 {
        assert(e == -(big_dy * rx));
        assert(big_dy * rx >= big_dy) by (nonlinear_arith)
            requires
                rx >= 1,
                big_dy >= 0,
        ;
    }
    if rx > ry {
        if big_dy > big_dx {
            assert(e <= -big_dy) by (nonlinear_arith)
                requires
                    e == big_dx * ry - big_dy * rx,
                    rx >= ry + 1,
                    ry >= 0,
                    big_dy > big_dx,
                    big_dx >= 0,
            ;
        }
    }
    if ry > rx {
        if big_dx > big_dy {
            assert(e >= big_dx) by (nonlinear_arith)
                requires
                    e == big_dx * ry - big_dy * rx,
                    ry >= rx + 1,
                    rx >= 0,
                    big_dx > big_dy,
                    big_dy >= 0,
            ;
        }
    }
    if rx == ry && rx > 0 {
        assert(e == (big_dx - big_dy) * rx) by (nonlinear_arith)
            requires
                e == big_dx * ry - big_dy * rx,
                rx == ry,
        ;
        if big_dx >= big_dy {
            assert(big_dx <= 2 * big_dy && e >= 0) by (nonlinear_arith)
                requires
                    e == (big_dx - big_dy) * rx,
                    2 * e <= big_dx,
                    rx >= 1,
                    big_dx >= big_dy,
            ;
        } else {
            assert(big_dy <= 2 * big_dx && e <= 0) by (nonlinear_arith)
                requires
                    e == (big_dx - big_dy) * rx,
                    -big_dy <= 2 * e,
                    rx >= 1,
                    big_dy > big_dx,
            ;
        }
    }
}

/// A point that the walk towards `(x1, y1)` may visit: within the remaining
/// distances, and within half a pixel of the ideal line.
pub open spec fn point_on_track(p: (int, int), x1: int, y1: int, dx: int, dy: int, sx: int, sy: int) -> bool {
    let rx = sx * (x1 - p.0);
    let ry = sy * (y1 - p.1);
    &&& 0 <= rx <= dx
    &&& 0 <= ry <= -dy
    &&& -max(dx, -dy) <= 2 * (dx * ry + dy * rx) <= max(dx, -dy)
}

/// A walk state whose error term matches its position.
pub open spec fn state_on_track(
    x: int,
    y: int,
    err: int,
    x1: int,
    y1: int,
    dx: int,
    dy: int,
    sx: int,
    sy: int,
) -> bool {
    &&& dx >= 0
    &&& dy <= 0
    &&& sx == 1 || sx == -1
    &&& sy == 1 || sy == -1
    &&& point_on_track((x, y), x1, y1, dx, dy, sx, sy)
    &&& err == dx + dy - dy * (sx * (x1 - x)) - dx * (sy * (y1 - y))
}

/// Consecutive points are 8-neighbours and every point is on track.
pub open spec fn walk_on_track(w: Seq<(int, int)>, x1: int, y1: int, dx: int, dy: int, sx: int, sy: int) -> bool {
    &&& forall|i: int| 0 <= i < w.len() - 1 ==> #[trigger] adjacent(w[i], w[i + 1])
    &&& forall|i: int| 0 <= i < w.len() ==> point_on_track(#[trigger] w[i], x1, y1, dx, dy, sx, sy)
}

/// One step of the walk from a state on track that is not at the end.
proof fn lemma_walk_step(
    x: int,
    y: int,
    err: int,
    x1: int,
    y1: int,
    dx: int,
    dy: int,
    sx: int,
    sy: int,
)
    requires
        state_on_track(x, y, err, x1, y1, dx, dy, sx, sy),
        !(x == x1 && y == y1),
    ensures
        ({
            let e2 = 2 * err;
            let nerr_x = if e2 >= dy {
                err + dy
            } else {
                err
            };
            let nx = if e2 >= dy {
                x + sx
            } else {
                x
            };
            let nerr = if e2 <= dx {
                nerr_x + dx
            } else {
                nerr_x
            };
            let ny = if e2 <= dx {
                y + sy
            } else {
                y
            };
            &&& state_on_track(nx, ny, nerr, x1, y1, dx, dy, sx, sy)
            &&& max(sx * (x1 - nx), sy * (y1 - ny)) == max(sx * (x1 - x), sy * (y1 - y)) - 1
            &&& adjacent((x, y), (nx, ny))
        }),
{
    let rx = sx * (x1 - x);
    let ry = sy * (y1 - y);
    if rx == 0 && ry == 0 {
        assert(x == x1) by (nonlinear_arith)
            requires
                sx * (x1 - x) == 0,
                sx == 1 || sx == -1,
        ;
        assert(y == y1) by (nonlinear_arith)
            requires
                sy * (y1 - y) == 0,
                sy == 1 || sy == -1,
        ;
    }
    let big_dx = dx;
    let big_dy = -dy;
    let e = big_dx * ry - big_dy * rx;
    assert(e == dx * ry + dy * rx) by (nonlinear_arith)
        requires
            e == big_dx * ry - big_dy * rx,
            big_dx == dx,
            big_dy == -dy,
    ;
    assert(err == dx + dy - e) by (nonlinear_arith)
        requires
            err == dx + dy - dy * rx - dx * ry,
            e == dx * ry + dy * rx,
    ;
    lemma_step_decisions(big_dx, big_dy, rx, ry, e);
    let e2 = 2 * err;
    let step_x = e2 >= dy;
    let step_y = e2 <= dx;
    let nx = if step_x {
        x + sx
    } else {
        x
    };
    let ny = if step_y {
        y + sy
    } else {
        y
    };
    let nerr = err + (if step_x {
        dy
    } else {
        0
    }) + (if step_y {
        dx
    } else {
        0
    });
    let nrx = sx * (x1 - nx);
    let nry = sy * (y1 - ny);
    let drx: int = if step_x {
        1
    } else {
        0
    };
    let dry: int = if step_y {
        1
    } else {
        0
    };
    assert(nrx == rx - drx) by (nonlinear_arith)
        requires
            nrx == sx * (x1 - nx),
            rx == sx * (x1 - x),
            nx == x + drx * sx,
            sx == 1 || sx == -1,
    ;
    assert(nry == ry - dry) by (nonlinear_arith)
        requires
            nry == sy * (y1 - ny),
            ry == sy * (y1 - y),
            ny == y + dry * sy,
            sy == 1 || sy == -1,
    ;
    let ne = dx * nry + dy * nrx;
    assert(ne == e - drx * dy - dry * dx) by (nonlinear_arith)
        requires
            ne == dx * nry + dy * nrx,
            e == dx * ry + dy * rx,
            nrx == rx - drx,
            nry == ry - dry,
    ;
    assert(nerr == dx + dy - dy * nrx - dx * nry) by (nonlinear_arith)
        requires
            err == dx + dy - dy * rx - dx * ry,
            nerr == err + drx * dy + dry * dx,
            nrx == rx - drx,
            nry == ry - dry,
    ;
}

/// Putting a point on track in front of a walk on track that starts next to it
/// keeps the walk on track.
proof fn lemma_walk_prepend(
    p: (int, int),
    rest: Seq<(int, int)>,
    x1: int,
    y1: int,
    dx: int,
    dy: int,
    sx: int,
    sy: int,
)
    requires
        rest.len() >= 1,
        adjacent(p, rest[0]),
        point_on_track(p, x1, y1, dx, dy, sx, sy),
        walk_on_track(rest, x1, y1, dx, dy, sx, sy),
    ensures
        walk_on_track(seq![p] + rest, x1, y1, dx, dy, sx, sy),
{
    let w = seq![p] + rest;
    assert forall|i: int| 0 <= i < w.len() - 1 implies #[trigger] adjacent(w[i], w[i + 1]) by {
        if i > 0 {
            assert(w[i] == rest[i - 1]);
            assert(w[i + 1] == rest[i]);
            assert(adjacent(rest[i - 1], rest[i - 1 + 1]));
        }
    }
    assert forall|i: int| 0 <= i < w.len() implies point_on_track(
        #[trigger] w[i],
        x1,
        y1,
        dx,
        dy,
        sx,
        sy,
    ) by {
        if i > 0 {
            assert(w[i] == rest[i - 1]);
        }
    }
}

/// The walk from any state on track visits points up to `(x1, y1)` and stops
/// there, with one point per step along the longer remaining distance.
proof fn lemma_walk_shape(
    x: int,
    y: int,
    err: int,
    x1: int,
    y1: int,
    dx: int,
    dy: int,
    sx: int,
    sy: int,
    fuel: nat,
)
    requires
        state_on_track(x, y, err, x1, y1, dx, dy, sx, sy),
        fuel >= max(sx * (x1 - x), sy * (y1 - y)) + 1,
    ensures
        ({
            let w = line_walk(x, y, err, x1, y1, dx, dy, sx, sy, fuel);
            &&& w.len() == max(sx * (x1 - x), sy * (y1 - y)) + 1
            &&& w[0] == (x, y)
            &&& w.last() == (x1, y1)
            &&& walk_on_track(w, x1, y1, dx, dy, sx, sy)
        }),
    decreases fuel,
{
    let w = line_walk(x, y, err, x1, y1, dx, dy, sx, sy, fuel);
    if x == x1 && y == y1 {
        assert(sx * (x1 - x) == 0 && sy * (y1 - y) == 0) by (nonlinear_arith)
            requires
                x == x1,
                y == y1,
        ;
    } else {
        lemma_walk_step(x, y, err, x1, y1, dx, dy, sx, sy);
        let e2 = 2 * err;
        let nerr_x = if e2 >= dy {
            err + dy
        } else {
            err
        };
        let nx = if e2 >= dy {
            x + sx
        } else {
            x
        };
        let nerr = if e2 <= dx {
            nerr_x + dx
        } else {
            nerr_x
        };
        let ny = if e2 <= dx {
            y + sy
        } else {
            y
        };
        lemma_walk_shape(nx, ny, nerr, x1, y1, dx, dy, sx, sy, (fuel - 1) as nat);
        let rest = line_walk(nx, ny, nerr, x1, y1, dx, dy, sx, sy, (fuel - 1) as nat);
        assert(w == seq![(x, y)] + rest);
        lemma_walk_prepend((x, y), rest, x1, y1, dx, dy, sx, sy);
    }
}

/// The Bresenham line from `(x0, y0)` to `(x1, y1)` starts at the first point
/// and ends at the second, has one point per step along the longer axis,
/// moves between 8-neighbours, stays in the bounding box of its ends, and
/// keeps every point within half a pixel of the ideal segment:
/// `2 * |(x - x0) * (y1 - y0) - (y - y0) * (x1 - x0)| <= max(|x1 - x0|, |y1 - y0|)`.
pub proof fn lemma_line_shape(x0: int, y0: int, x1: int, y1: int)
    ensures
        ({
            let pts = line_points(x0, y0, x1, y1);
            &&& pts.len() == max(abs(x1 - x0), abs(y1 - y0)) + 1
            &&& pts[0] == (x0, y0)
            &&& pts.last() == (x1, y1)
            &&& forall|i: int| 0 <= i < pts.len() - 1 ==> #[trigger] adjacent(pts[i], pts[i + 1])
            &&& forall|i: int|
                0 <= i < pts.len() ==> {
                    let p = #[trigger] pts[i];
                    &&& (if x0 <= x1 {
                        x0 <= p.0 <= x1
                    } else {
                        x1 <= p.0 <= x0
                    })
                    &&& (if y0 <= y1 {
                        y0 <= p.1 <= y1
                    } else {
                        y1 <= p.1 <= y0
                    })
                    &&& 2 * abs((p.0 - x0) * (y1 - y0) - (p.1 - y0) * (x1 - x0)) <= max(
                        abs(x1 - x0),
                        abs(y1 - y0),
                    )
                }
        }),
{
    let dx = abs(x1 - x0);
    let dy = -abs(y1 - y0);
    let sx = step_towards(x0, x1);
    let sy = step_towards(y0, y1);
    assert(sx * (x1 - x0) == dx) by (nonlinear_arith)
        requires
            sx == step_towards(x0, x1),
            dx == abs(x1 - x0),
    ;
    assert(sy * (y1 - y0) == -dy) by (nonlinear_arith)
        requires
            sy == step_towards(y0, y1),
            dy == -abs(y1 - y0),
    ;
    assert(dx * (-dy) + dy * dx == 0) by (nonlinear_arith);
    lemma_walk_shape(x0, y0, dx + dy, x1, y1, dx, dy, sx, sy, (dx - dy + 1) as nat);
    let pts = line_points(x0, y0, x1, y1);
    assert forall|i: int| 0 <= i < pts.len() implies {
        let p = #[trigger] pts[i];
        &&& (if x0 <= x1 {
            x0 <= p.0 <= x1
        } else {
            x1 <= p.0 <= x0
        })
        &&& (if y0 <= y1 {
            y0 <= p.1 <= y1
        } else {
            y1 <= p.1 <= y0
        })
        &&& 2 * abs((p.0 - x0) * (y1 - y0) - (p.1 - y0) * (x1 - x0)) <= max(
            abs(x1 - x0),
            abs(y1 - y0),
        )
    } by {
        let p = pts[i];
        let rx = sx * (x1 - p.0);
        let ry = sy * (y1 - p.1);
        assert(point_on_track(pts[i], x1, y1, dx, dy, sx, sy));
        assert(0 <= rx <= dx);
        assert(0 <= ry <= -dy);
        assert(-max(dx, -dy) <= 2 * (dx * ry + dy * rx) <= max(dx, -dy));
        assert((p.0 - x0) * (y1 - y0) - (p.1 - y0) * (x1 - x0) == sx * sy * (dx * ry + dy * rx))
            by (nonlinear_arith)
            requires
                rx == sx * (x1 - p.0),
                ry == sy * (y1 - p.1),
                sx * (x1 - x0) == dx,
                sy * (y1 - y0) == -dy,
                sx == 1 || sx == -1,
                sy == 1 || sy == -1,
        ;
        assert(abs(sx * sy * (dx * ry + dy * rx)) == abs(dx * ry + dy * rx)) by (nonlinear_arith)
            requires
                sx == 1 || sx == -1,
                sy == 1 || sy == -1,
        ;
        if x0 <= x1 {
            assert(p.0 == x1 - rx);
        } else {
            assert(p.0 == x1 + rx);
        }
        if y0 <= y1 {
            assert(p.1 == y1 - ry);
        } else {
            assert(p.1 == y1 + ry);
        }
    }
}

/// Every vertex of a closed contour lies on its outline.
pub proof fn lemma_outline_through_vertices(points: Seq<Point>, i: int)
    requires
        0 <= i < points.len(),
    ensures
        polyline_region(points)(points[i].x as int, points[i].y as int),
{
    let (a, b) = edge_at(points, i);
    lemma_line_shape(a.x as int, a.y as int, b.x as int, b.y as int);
    let pts = line_points(a.x + 0, a.y + 0, b.x + 0, b.y + 0);
    assert(pts[0] == (a.x as int, a.y as int));
    assert(pts.contains((a.x as int, a.y as int)));
    assert(plain_edges(points)(i, points[i].x as int, points[i].y as int));
}

/// A pen at most two pixels wide draws exactly the plain outline.
pub proof fn lemma_thin_pen_is_plain_outline(v: FrameView, points: Seq<Point>, width: int, c: Color)
    requires
        width <= 2,
    ensures
        v.paint(thick_polyline_region(points, pen_radius(width)), c) == v.paint(
            polyline_region(points),
            c,
        ),
{
    assert(pen_radius(width) == 0);
    let thick = thick_polyline_region(points, 0);
    let plain = polyline_region(points);
    assert forall|x: int, y: int| #[trigger] thick(x, y) == plain(x, y) by {
        if thick(x, y) {
            let i = choose|i: int| 0 <= i < points.len() && #[trigger] thick_edges(points, 0)(i, x, y);
            let (a, b) = edge_at(points, i);
            let oy = choose|oy: int| -0 <= oy < 0 + 1 && #[trigger] shift_rows(a, b, 0)(oy, x, y);
            let ox = choose|ox: int| -0 <= ox < 0 + 1 && #[trigger] shifts_in_row(a, b, oy)(ox, x, y);
            assert(ox == 0 && oy == 0);
            assert(plain_edges(points)(i, x, y));
        }
        if plain(x, y) {
            let i = choose|i: int| 0 <= i < points.len() && #[trigger] plain_edges(points)(i, x, y);
            let (a, b) = edge_at(points, i);
            assert(shifts_in_row(a, b, 0)(0, x, y));
            assert(shift_rows(a, b, 0)(0, x, y));
            assert(thick_edges(points, 0)(i, x, y));
        }
    }
    assert(v.paint(thick, c) =~= v.paint(plain, c));
}

/// The points of a closed contour read from point `k` on: `p[k..]` then `p[..k]`.
pub open spec fn rotate(points: Seq<Point>, k: int) -> Seq<Point> {
    points.subrange(k, points.len() as int) + points.subrange(0, k)
}

/// The index that edge `i` of a contour rotated by `k` has in the contour itself.
pub open spec fn rotated_index(i: int, k: int, n: int) -> int {
    if i + k < n {
        i + k
    } else {
        i + k - n
    }
}

/// Edge `i` of the rotated contour is edge `rotated_index(i, k, n)` of the contour.
pub proof fn lemma_rotate_edges(points: Seq<Point>, k: int, i: int)
    requires
        0 <= k < points.len(),
        0 <= i < points.len(),
    ensures
        edge_at(rotate(points, k), i) == edge_at(points, rotated_index(i, k, points.len() as int)),
{
    let n = points.len() as int;
    let q = rotate(points, k);
    assert(q.len() == n);
    assert forall|t: int| 0 <= t < n implies #[trigger] q[t] == points[rotated_index(t, k, n)] by {
        if t < n - k {
            assert(q[t] == points.subrange(k, n)[t]);
        } else {
            assert(q[t] == points.subrange(0, k)[t - (n - k)]);
        }
    }
    assert(q[i] == points[rotated_index(i, k, n)]);
    let ni = next_index(i, n);
    assert(q[ni] == points[rotated_index(ni, k, n)]);
    assert(rotated_index(ni, k, n) == next_index(rotated_index(i, k, n), n));
}

/// A union over the edges of a rotated contour is the union over the edges
/// of the contour, when each member depends only on its edge.
proof fn lemma_union_over_rotation(
    pq: spec_fn(int, int, int) -> bool,
    pp: spec_fn(int, int, int) -> bool,
    n: int,
    k: int,
)
    requires
        0 <= k < n,
        forall|i: int, x: int, y: int| 0 <= i < n ==> #[trigger] pq(i, x, y) == pp(rotated_index(i, k, n), x, y),
    ensures
        forall|x: int, y: int| #[trigger] union_upto(pq, 0, n)(x, y) == union_upto(pp, 0, n)(x, y),
{
    assert forall|x: int, y: int| #[trigger] union_upto(pq, 0, n)(x, y) == union_upto(pp, 0, n)(x, y) by {
        if union_upto(pq, 0, n)(x, y) {
            let i = choose|i: int| 0 <= i < n && #[trigger] pq(i, x, y);
            assert(pp(rotated_index(i, k, n), x, y));
        }
        if union_upto(pp, 0, n)(x, y) {
            let j = choose|j: int| 0 <= j < n && #[trigger] pp(j, x, y);
            let i = if j >= k {
                j - k
            } else {
                j - k + n
            };
            assert(rotated_index(i, k, n) == j);
            assert(pq(i, x, y));
        }
    }
}

/// Starting a closed contour at another of its points does not change its
/// outline: both have the same edges.
pub proof fn lemma_outline_rotation_invariant(v: FrameView, points: Seq<Point>, k: int, c: Color)
    requires
        0 <= k < points.len(),
    ensures
        forall|x: int, y: int| #[trigger] polyline_region(rotate(points, k))(x, y) == polyline_region(points)(x, y),
        v.paint(polyline_region(rotate(points, k)), c) == v.paint(polyline_region(points), c),
{
    let n = points.len() as int;
    let q = rotate(points, k);
    assert forall|i: int, x: int, y: int| 0 <= i < n implies #[trigger] plain_edges(q)(i, x, y)
        == plain_edges(points)(rotated_index(i, k, n), x, y) by {
        lemma_rotate_edges(points, k, i);
    }
    assert(q.len() == n);
    lemma_union_over_rotation(plain_edges(q), plain_edges(points), n, k);
    assert(v.paint(polyline_region(q), c) =~= v.paint(polyline_region(points), c));
}

/// Starting a closed contour at another of its points does not change its
/// thick outline either.
pub proof fn lemma_thick_outline_rotation_invariant(v: FrameView, points: Seq<Point>, k: int, r: int, c: Color)
    requires
        0 <= k < points.len(),
    ensures
        forall|x: int, y: int| #[trigger] thick_polyline_region(rotate(points, k), r)(x, y) == thick_polyline_region(points, r)(x, y),
        v.paint(thick_polyline_region(rotate(points, k), r), c) == v.paint(thick_polyline_region(points, r), c),
{
    let n = points.len() as int;
    let q = rotate(points, k);
    assert forall|i: int, x: int, y: int| 0 <= i < n implies #[trigger] thick_edges(q, r)(i, x, y)
        == thick_edges(points, r)(rotated_index(i, k, n), x, y) by {
        lemma_rotate_edges(points, k, i);
    }
    assert(q.len() == n);
    lemma_union_over_rotation(thick_edges(q, r), thick_edges(points, r), n, k);
    assert(v.paint(thick_polyline_region(q, r), c) =~= v.paint(thick_polyline_region(points, r), c));
}

/// A contour moved by `(ox, oy)`.
pub open spec fn shift_points(points: Seq<Point>, ox: int, oy: int) -> Seq<Point> {
    points.map_values(|p: Point| Point { x: (p.x + ox) as i32, y: (p.y + oy) as i32 })
}

/// Every point of the contour stays a valid point when moved by up to `r` on each axis.
pub open spec fn shifts_fit(points: Seq<Point>, r: int) -> bool {
    forall|i: int|
        0 <= i < points.len() ==> {
            &&& i32::MIN + r <= (#[trigger] points[i]).x <= i32::MAX - r
            &&& i32::MIN + r <= points[i].y <= i32::MAX - r
        }
}

/// The plain outlines of the contour moved by every `(ox, oy)` with both
/// components in `-r..=r`, together.
pub open spec fn shifted_outlines(points: Seq<Point>, r: int) -> spec_fn(int, int) -> bool {
    |x: int, y: int|
        exists|ox: int, oy: int|
            -r <= ox <= r && -r <= oy <= r && #[trigger] polyline_region(shift_points(points, ox, oy))(x, y)
}

/// Edge `i` of a moved contour is edge `i` moved.
proof fn lemma_shift_edge(points: Seq<Point>, r: int, ox: int, oy: int, i: int)
    requires
        shifts_fit(points, r),
        -r <= ox <= r,
        -r <= oy <= r,
        0 <= i < points.len(),
    ensures
        ({
            let (a, b) = edge_at(points, i);
            let (sa, sb) = edge_at(shift_points(points, ox, oy), i);
            &&& sa.x == a.x + ox && sa.y == a.y + oy
            &&& sb.x == b.x + ox && sb.y == b.y + oy
        }),
{
    let n = points.len() as int;
    let ni = next_index(i, n);
    assert(0 <= ni < n);
    assert(i32::MIN + r <= points[i].x <= i32::MAX - r);
    assert(i32::MIN + r <= points[ni].x <= i32::MAX - r);
}

/// A square pen of half-side `r` draws the plain outlines of the contour moved
/// by every shift in the square, in any order: the same pixels as painting
/// each moved outline in turn.
pub proof fn lemma_thick_is_shifted_outlines(v: FrameView, points: Seq<Point>, r: int, c: Color)
    requires
        r >= 0,
        shifts_fit(points, r),
    ensures
        forall|x: int, y: int| #[trigger] thick_polyline_region(points, r)(x, y) == shifted_outlines(points, r)(x, y),
        v.paint(thick_polyline_region(points, r), c) == v.paint(shifted_outlines(points, r), c),
{
    let n = points.len() as int;
    let thick = thick_polyline_region(points, r);
    let moved = shifted_outlines(points, r);
    assert forall|x: int, y: int| #[trigger] thick(x, y) == moved(x, y) by {
        if thick(x, y) {
            let i = choose|i: int| 0 <= i < n && #[trigger] thick_edges(points, r)(i, x, y);
            let (a, b) = edge_at(points, i);
            let oy = choose|oy: int| -r <= oy < r + 1 && #[trigger] shift_rows(a, b, r)(oy, x, y);
            let ox = choose|ox: int| -r <= ox < r + 1 && #[trigger] shifts_in_row(a, b, oy)(ox, x, y);
            let q = shift_points(points, ox, oy);
            lemma_shift_edge(points, r, ox, oy, i);
            assert(plain_edges(q)(i, x, y));
            assert(polyline_region(q)(x, y));
        }
        if moved(x, y) {
            let (ox, oy) = choose|ox: int, oy: int|
                -r <= ox <= r && -r <= oy <= r && #[trigger] polyline_region(shift_points(points, ox, oy))(x, y);
            let q = shift_points(points, ox, oy);
            let i = choose|i: int| 0 <= i < q.len() && #[trigger] plain_edges(q)(i, x, y);
            lemma_shift_edge(points, r, ox, oy, i);
            let (a, b) = edge_at(points, i);
            assert(shifts_in_row(a, b, oy)(ox, x, y));
            assert(shift_rows(a, b, r)(oy, x, y));
            assert(thick_edges(points, r)(i, x, y));
        }
    }
    assert(v.paint(thick, c) =~= v.paint(moved, c));
}

/// Pens of widths `2k + 1` and `2k + 2` have the same half-side `k`, so they draw alike.
pub proof fn lemma_pen_radius_of_width(k: int)
    requires
        k >= 0,
    ensures
        pen_radius(2 * k + 1) == k,
        pen_radius(2 * k + 2) == k,
{
}

} // verus!
