use vstd::prelude::*;
use vstd::arithmetic::div_mod::{lemma_fundamental_div_mod, lemma_fundamental_div_mod_converse};

use crate::framebuffer::{
    lemma_paint_congruent, lemma_paint_extend, lemma_paint_nothing, lemma_paint_union_empty,
    point_region, union_upto, Color, FrameView, Framebuffer, Point,
};
use crate::line::{contour_edges, edge_at, lemma_rotate_edges, next_index, rotate, rotated_index};

verus! {

/// How many values of `s` are at most `x`.
pub open spec fn count_le(s: Seq<int>, x: int) -> nat
    decreases s.len(),
{
    if s.len() == 0 {
        0
    } else {
        count_le(s.drop_last(), x) + if s.last() <= x {
            1nat
        } else {
            0nat
        }
    }
}

/// Whether `s` is in ascending order.
pub open spec fn ascending(s: Seq<int>) -> bool {
    forall|i: int, j: int| 0 <= i <= j < s.len() ==> s[i] <= s[j]
}

/// The values of a sequence of wide integers, as mathematical integers.
pub open spec fn as_ints(s: Seq<i128>) -> Seq<int> {
    s.map_values(|v: i128| v as int)
}

/// The even-odd rule on one scanline: a column is inside when an odd number
/// of the crossings lie at or left of it and the crossing that closes its span
/// exists (an unpaired last crossing opens nothing).
pub open spec fn row_covers(crossings: Seq<int>, x: int) -> bool {
    let c = count_le(crossings, x);
    c % 2 == 1 && c < crossings.len()
}

pub proof fn lemma_count_le_bounded(s: Seq<int>, x: int)
    ensures
        count_le(s, x) <= s.len(),
    decreases s.len(),
{
    if s.len() > 0 {
        lemma_count_le_bounded(s.drop_last(), x);
    }
}

/// Counting distributes over concatenation.
pub proof fn lemma_count_le_concat(a: Seq<int>, b: Seq<int>, x: int)
    ensures
        count_le(a + b, x) == count_le(a, x) + count_le(b, x),
    decreases b.len(),
{
    if b.len() == 0 {
        assert(a + b =~= a);
    } else {
        lemma_count_le_concat(a, b.drop_last(), x);
        assert((a + b).drop_last() =~= a + b.drop_last());
    }
}

/// Inserting a value anywhere adds exactly its own contribution to every count.
pub proof fn lemma_count_le_insert(s: Seq<int>, pos: int, v: int, x: int)
    requires
        0 <= pos <= s.len(),
    ensures
        count_le(s.insert(pos, v), x) == count_le(s, x) + if v <= x {
            1nat
        } else {
            0nat
        },
{
    let pre = s.take(pos);
    let post = s.skip(pos);
    assert(s =~= pre + post);
    assert(s.insert(pos, v) =~= pre + (seq![v] + post));
    lemma_count_le_concat(pre, post, x);
    lemma_count_le_concat(pre, seq![v] + post, x);
    lemma_count_le_concat(seq![v], post, x);
    assert(seq![v].drop_last() =~= Seq::<int>::empty());
    assert(count_le(seq![v], x) == count_le(Seq::<int>::empty(), x) + if v <= x {
        1nat
    } else {
        0nat
    });
}

/// In an ascending sequence the values at most `x` are exactly a prefix, whose
/// length is their count.
pub proof fn lemma_count_le_ascending(s: Seq<int>, x: int)
    requires
        ascending(s),
    ensures
        forall|i: int| 0 <= i < s.len() ==> (#[trigger] s[i] <= x <==> i < count_le(s, x)),
    decreases s.len(),
{
    if s.len() > 0 {
        let t = s.drop_last();
        assert(ascending(t));
        lemma_count_le_ascending(t, x);
        lemma_count_le_bounded(t, x);
        if s.last() <= x {
            assert forall|i: int| 0 <= i < t.len() implies t[i] <= x by {
                assert(s[i] <= s[s.len() - 1]);
            }
            if count_le(t, x) < t.len() {
                let k = count_le(t, x) as int;
                assert(t[k] <= x);
            }
            assert(count_le(s, x) == s.len());
        } else {
            assert(count_le(s, x) == count_le(t, x));
        }
        assert forall|i: int| 0 <= i < s.len() implies (#[trigger] s[i] <= x <==> i < count_le(
            s,
            x,
        )) by {
            if i < t.len() {
                assert(s[i] == t[i]);
            }
        }
    }
}

/// Sorts crossings into ascending order.
fn sort_crossings(xs: &Vec<i128>) -> (out: Vec<i128>)
    ensures
        ascending(as_ints(out@)),
        out@.len() == xs@.len(),
        forall|x: int| #[trigger] count_le(as_ints(out@), x) == count_le(as_ints(xs@), x),
{
    let n = xs.len();
    let mut out: Vec<i128> = Vec::new();
    let mut i: usize = 0;
    while i < n
        invariant
            n == xs@.len(),
            i <= n,
            out@.len() == i,
            ascending(as_ints(out@)),
            forall|x: int| #[trigger]
                count_le(as_ints(out@), x) == count_le(as_ints(xs@.take(i as int)), x),
        decreases n - i,
    {
        let v = xs[i];
        let mut pos: usize = 0;
        while pos < out.len() && out[pos] <= v
            invariant
                pos <= out@.len(),
                forall|k: int| 0 <= k < pos ==> out@[k] <= v,
            decreases out@.len() - pos,
        {
            pos += 1;
        }
        let ghost before = as_ints(out@);
        proof {
            assert forall|k: int| pos <= k < out@.len() implies v < out@[k] by {
                assert(before[pos as int] <= before[k]);
            }
        }
        out.insert(pos, v);
        proof {
            let after = as_ints(out@);
            assert(after =~= before.insert(pos as int, v as int));
            assert forall|a: int, b: int| 0 <= a <= b < after.len() implies after[a] <= after[b] by {
                if a < pos && b > pos {
                    assert(before[a] <= v);
                } else if a < pos && b == pos {
                } else if a == pos && b > pos {
                    assert(v < before[b - 1]);
                } else if a > pos {
                    assert(before[a - 1] <= before[b - 1]);
                } else {
                    assert(before[a] <= before[b]);
                }
            }
            assert(as_ints(xs@.take(i + 1)) =~= as_ints(xs@.take(i as int)).push(v as int));
            assert forall|x: int| #[trigger]
                count_le(after, x) == count_le(as_ints(xs@.take(i + 1)), x) by {
                lemma_count_le_insert(before, pos as int, v as int, x);
                assert(as_ints(xs@.take(i + 1)).drop_last() =~= as_ints(xs@.take(i as int)));
            }
        }
        i += 1;
    }
    assert(xs@.take(n as int) =~= xs@);
    out
}

/// `v` limited to `lo..=hi`.
pub open spec fn clamp(v: int, lo: int, hi: int) -> int {
    if v < lo {
        lo
    } else if v > hi {
        hi
    } else {
        v
    }
}

/// A size converted with a wrapping `as i32` cast: sizes above `i32::MAX` wrap around.
pub open spec fn as_i32(n: nat) -> int {
    (n as i32) as int
}

/// Whether the edge from `a` to `b` crosses the horizontal line through the
/// centre of row `y`. Horizontal edges never cross; the row of the lower end
/// counts and that of the upper end does not, so a vertex shared by two edges
/// is met once.
pub open spec fn crosses(a: Point, b: Point, y: int) -> bool {
    a.y != b.y && if a.y < b.y {
        a.y <= y < b.y
    } else {
        b.y <= y < a.y
    }
}

/// The least integer at or above `n / d`, for `d > 0`.
pub open spec fn ceil_div(n: int, d: int) -> int {
    -((-n) / d)
}

/// The column where the edge from `a` to `b` meets the horizontal line
/// `y + 1/2`, rounded up: `a.x + (y + 1/2 - a.y) * (b.x - a.x) / (b.y - a.y)`
/// as an exact fraction, then its ceiling.
pub open spec fn crossing_x(a: Point, b: Point, y: int) -> int {
    let d = 2 * (b.y - a.y);
    let n = 2 * a.x * (b.y - a.y) + (2 * y + 1 - 2 * a.y) * (b.x - a.x);
    if d > 0 {
        ceil_div(n, d)
    } else {
        ceil_div(-n, -d)
    }
}

/// The crossings of the first `k` edges of a closed contour with row `y`, in
/// edge order.
pub open spec fn contour_crossings(points: Seq<Point>, k: int, y: int) -> Seq<int>
    decreases k,
{
    if k <= 0 {
        seq![]
    } else {
        let (a, b) = edge_at(points, k - 1);
        contour_crossings(points, k - 1, y) + if crosses(a, b, y) {
            seq![crossing_x(a, b, y)]
        } else {
            seq![]
        }
    }
}

/// The crossings of all the contours with row `y`, contour by contour.
pub open spec fn row_crossings(contours: Seq<Seq<Point>>, y: int) -> Seq<int>
    decreases contours.len(),
{
    if contours.len() == 0 {
        seq![]
    } else {
        let last = contours.last();
        row_crossings(contours.drop_last(), y) + contour_crossings(last, last.len() as int, y)
    }
}

/// The contours as point sequences.
pub open spec fn contour_seqs(contours: Seq<&[Point]>) -> Seq<Seq<Point>> {
    contours.map_values(|c: &[Point]| c@)
}

/// The pixels that the scanline fill paints: the columns `0..width` and rows
/// `0..height` that the even-odd rule puts inside the contours.
pub open spec fn fill_region(contours: Seq<Seq<Point>>, width: int, height: int) -> spec_fn(
    int,
    int,
) -> bool {
    |x: int, y: int|
        0 <= x < width && 0 <= y < height && row_covers(row_crossings(contours, y), x)
}

/// The pixels that the fill paints on row `row`, indexed by `row`.
pub open spec fn row_fills(contours: Seq<Seq<Point>>, width: int) -> spec_fn(int, int, int) -> bool {
    |row: int, x: int, y: int|
        y == row && 0 <= x < width && row_covers(row_crossings(contours, row), x)
}

/// Span `j` of a row: from crossing `2j` up to, not including, crossing
/// `2j + 1`, both limited to `0..=width`.
pub open spec fn spans(xs: Seq<int>, width: int, row: int) -> spec_fn(int, int, int) -> bool {
    |j: int, x: int, y: int|
        y == row && clamp(xs[2 * j], 0, width) <= x < clamp(xs[2 * j + 1], 0, width)
}

/// The single pixel `(col, row)`, indexed by `col`.
pub open spec fn columns(row: int) -> spec_fn(int, int, int) -> bool {
    |col: int, x: int, y: int| x == col && y == row
}

/// `ceil(n / d)` computed on wide integers.
fn ceil_quotient(n: i128, d: i128) -> (q: i128)
    requires
        0 < d <= 0x1_0000_0000_0000,
        -0x1_0000_0000_0000_0000_0000 <= n <= 0x1_0000_0000_0000_0000_0000,
    ensures
        q == ceil_div(n as int, d as int),
{
    if n >= 0 {
        let num: u128 = (n as u128) + (d as u128) - 1;
        let q: u128 = num / (d as u128);
        proof {
            let u = num as int;
            let di = d as int;
            lemma_fundamental_div_mod(u, di);
            let r = u % di;
            assert(u == di * (q as int) + r);
            assert(-(n as int) == (-(q as int)) * di + (di - 1 - r)) by (nonlinear_arith)
                requires
                    u == di * (q as int) + r,
                    u == n + di - 1,
            ;
            lemma_fundamental_div_mod_converse(-(n as int), di, -(q as int), di - 1 - r);
        }
        q as i128
    } else {
        let m: u128 = ((-n) as u128) / (d as u128);
        -(m as i128)
    }
}

/// The rounded-up column where the edge from `a` to `b` meets row `y`.
fn edge_crossing(a: Point, b: Point, y: i32) -> (x: i128)
    requires
        a.y != b.y,
    ensures
        x == crossing_x(a, b, y as int),
{
    let dy: i128 = b.y as i128 - a.y as i128;
    let dx: i128 = b.x as i128 - a.x as i128;
    let t: i128 = 2 * (y as i128) + 1 - 2 * (a.y as i128);
    let ax: i128 = a.x as i128;
    assert(-0x1_0000_0000_0000_0000 <= 2 * ax * dy <= 0x1_0000_0000_0000_0000) by (nonlinear_arith)
        requires
            -0x8000_0000 <= ax <= 0x8000_0000,
            -0x1_0000_0000 <= dy <= 0x1_0000_0000,
    ;
    assert(-0x10_0000_0000_0000_0000 <= t * dx <= 0x10_0000_0000_0000_0000) by (nonlinear_arith)
        requires
            -0x8_0000_0000 <= t <= 0x8_0000_0000,
            -0x1_0000_0000 <= dx <= 0x1_0000_0000,
    ;
    let n: i128 = 2 * ax * dy + t * dx;
    let d: i128 = 2 * dy;
    assert(d != 0);
    if d > 0 {
        ceil_quotient(n, d)
    } else {
        ceil_quotient(-n, -d)
    }
}

/// The crossings of every contour with row `y`, in contour and edge order.
fn row_crossing_list(contours: &[&[Point]], y: i32) -> (xs: Vec<i128>)
    ensures
        as_ints(xs@) == row_crossings(contour_seqs(contours@), y as int),
{
    let ghost cs = contour_seqs(contours@);
    let mut xs: Vec<i128> = Vec::new();
    let mut ci: usize = 0;
    assert(cs.take(0) =~= Seq::<Seq<Point>>::empty());
    assert(as_ints(xs@) =~= row_crossings(cs.take(0), y as int));
    while ci < contours.len()
        invariant
            cs == contour_seqs(contours@),
            ci <= contours@.len(),
            as_ints(xs@) == row_crossings(cs.take(ci as int), y as int),
        decreases contours@.len() - ci,
    {
        let contour: &[Point] = contours[ci];
        let edges = contour_edges(contour);
        let ghost base = as_ints(xs@);
        let mut ei: usize = 0;
        assert(base =~= base + contour_crossings(contour@, 0, y as int));
        while ei < edges.len()
            invariant
                edges@.len() == contour@.len(),
                forall|k: int| 0 <= k < contour@.len() ==> #[trigger] edges@[k] == edge_at(contour@, k),
                ei <= edges@.len(),
                as_ints(xs@) == base + contour_crossings(contour@, ei as int, y as int),
            decreases edges@.len() - ei,
        {
            let (a, b) = edges[ei];
            assert(edges@[ei as int] == edge_at(contour@, ei as int));
            let ghost prev = as_ints(xs@);
            if a.y != b.y {
                let (lo, hi) = if a.y < b.y {
                    (a.y, b.y)
                } else {
                    (b.y, a.y)
                };
                if lo <= y && y < hi {
                    let x = edge_crossing(a, b, y);
                    xs.push(x);
                    assert(as_ints(xs@) =~= prev.push(x as int));
                }
            }
            assert(as_ints(xs@) =~= base + contour_crossings(contour@, ei + 1, y as int));
            ei += 1;
        }
        proof {
            assert(cs.take(ci + 1).drop_last() =~= cs.take(ci as int));
            assert(cs[ci as int] == contour@);
        }
        ci += 1;
    }
    assert(cs.take(contours@.len() as int) =~= cs);
    xs
}

/// The smallest and largest `y` over every point of every contour, or `None`
/// when the contours hold no point.
pub fn vertical_bounds(contours: &[&[Point]]) -> (bounds: Option<(i32, i32)>)
    ensures
        bounds is None <==> forall|i: int|
            0 <= i < contours@.len() ==> (#[trigger] contours@[i])@.len() == 0,
        bounds matches Some((lo, hi)) ==> {
            &&& forall|i: int, j: int|
                0 <= i < contours@.len() && 0 <= j < contours@[i]@.len() ==> lo <= (
                #[trigger] contours@[i]@[j]).y <= hi
            &&& exists|i: int, j: int|
                0 <= i < contours@.len() && 0 <= j < contours@[i]@.len() && (
                #[trigger] contours@[i]@[j]).y == lo
            &&& exists|i: int, j: int|
                0 <= i < contours@.len() && 0 <= j < contours@[i]@.len() && (
                #[trigger] contours@[i]@[j]).y == hi
        },
{
    let mut bounds: Option<(i32, i32)> = None;
    let ghost mut lo_at: (int, int) = (0, 0);
    let ghost mut hi_at: (int, int) = (0, 0);
    let mut ci: usize = 0;
    while ci < contours.len()
        invariant
            ci <= contours@.len(),
            bounds is None <==> forall|i: int| 0 <= i < ci ==> (#[trigger] contours@[i])@.len() == 0,
            bounds matches Some((lo, hi)) ==> {
                &&& forall|i: int, j: int|
                    0 <= i < ci && 0 <= j < contours@[i]@.len() ==> lo <= (
                    #[trigger] contours@[i]@[j]).y <= hi
                &&& 0 <= lo_at.0 < ci && 0 <= lo_at.1 < contours@[lo_at.0]@.len()
                &&& contours@[lo_at.0]@[lo_at.1].y == lo
                &&& 0 <= hi_at.0 < ci && 0 <= hi_at.1 < contours@[hi_at.0]@.len()
                &&& contours@[hi_at.0]@[hi_at.1].y == hi
            },
        decreases contours@.len() - ci,
    {
        let contour: &[Point] = contours[ci];
        let mut pi: usize = 0;
        let ghost empty_before = bounds is None;
        while pi < contour.len()
            invariant
                contour@ == contours@[ci as int]@,
                ci < contours@.len(),
                pi <= contour@.len(),
                empty_before <==> forall|i: int|
                    0 <= i < ci ==> (#[trigger] contours@[i])@.len() == 0,
                bounds is None <==> (empty_before && pi == 0),
                bounds matches Some((lo, hi)) ==> {
                    &&& forall|i: int, j: int|
                        0 <= i < ci && 0 <= j < contours@[i]@.len() ==> lo <= (
                        #[trigger] contours@[i]@[j]).y <= hi
                    &&& forall|j: int| 0 <= j < pi ==> lo <= (#[trigger] contour@[j]).y <= hi
                    &&& ((0 <= lo_at.0 < ci && 0 <= lo_at.1 < contours@[lo_at.0]@.len()) || (
                    lo_at.0 == ci && 0 <= lo_at.1 < pi))
                    &&& contours@[lo_at.0]@[lo_at.1].y == lo
                    &&& ((0 <= hi_at.0 < ci && 0 <= hi_at.1 < contours@[hi_at.0]@.len()) || (
                    hi_at.0 == ci && 0 <= hi_at.1 < pi))
                    &&& contours@[hi_at.0]@[hi_at.1].y == hi
                },
            decreases contour@.len() - pi,
        {
            let py = contour[pi].y;
            match bounds {
                None => {
                    bounds = Some((py, py));
                    proof {
                        lo_at = (ci as int, pi as int);
                        hi_at = (ci as int, pi as int);
                    }
                },
                Some((lo, hi)) => {
                    let new_lo = if py < lo {
                        proof {
                            lo_at = (ci as int, pi as int);
                        }
                        py
                    } else {
                        lo
                    };
                    let new_hi = if py > hi {
                        proof {
                            hi_at = (ci as int, pi as int);
                        }
                        py
                    } else {
                        hi
                    };
                    bounds = Some((new_lo, new_hi));
                },
            }
            pi += 1;
        }
        proof {
            if bounds is None {
                assert forall|i: int| 0 <= i < ci + 1 implies (#[trigger] contours@[i])@.len()
                    == 0 by {
                    if i == ci {
                        assert(contour@.len() == 0);
                    }
                }
            }
            if let Some((lo, hi)) = bounds {
                assert forall|i: int, j: int|
                    0 <= i < ci + 1 && 0 <= j < contours@[i]@.len() implies lo <= (
                    #[trigger] contours@[i]@[j]).y <= hi by {
                    if i == ci {
                        assert(contour@[j] == contours@[i]@[j]);
                    }
                }
            }
        }
        ci += 1;
    }
    proof {
        if let Some((lo, hi)) = bounds {
            assert(contours@[lo_at.0]@[lo_at.1].y == lo);
            assert(contours@[hi_at.0]@[hi_at.1].y == hi);
        }
    }
    bounds
}

/// `v` limited to `0..=width`, as a column.
fn clamp_column(v: i128, width: i32) -> (c: i32)
    requires
        width >= 0,
    ensures
        c == clamp(v as int, 0, width as int),
{
    if v < 0 {
        0
    } else if v > width as i128 {
        width
    } else {
        v as i32
    }
}

/// On an ascending row of crossings, the spans painted pair by pair are the
/// pixels that the even-odd rule puts inside.
pub proof fn lemma_spans_follow_rule(v: Seq<int>, width: int, row: int, x: int, y: int)
    requires
        ascending(v),
        width >= 0 || v.len() < 2,
    ensures
        union_upto(spans(v, width, row), 0, v.len() as int / 2)(x, y) == (y == row && 0 <= x < width
            && row_covers(v, x)),
{
    let n = v.len() as int;
    let p = spans(v, width, row);
    let lhs = union_upto(p, 0, n / 2)(x, y);
    if lhs {
        let j = choose|j: int| 0 <= j < n / 2 && #[trigger] p(j, x, y);
        assert(width >= 0);
        assert(0 <= x < width);
        lemma_count_le_ascending(v, x);
        assert(v[2 * j] <= x);
        assert(!(v[2 * j + 1] <= x));
        assert(count_le(v, x) == 2 * j + 1);
    }
    if y == row && 0 <= x < width && row_covers(v, x) {
        lemma_count_le_ascending(v, x);
        let c = count_le(v, x) as int;
        let j = (c - 1) / 2;
        assert(2 * j + 1 == c);
        assert(v[2 * j] <= x);
        assert(!(v[2 * j + 1] <= x));
        assert(p(j, x, y));
    }
}

/// Paints the spans of one row: crossing `2j` up to crossing `2j + 1`, both
/// limited to `0..=width`; an unpaired last crossing is ignored.
fn fill_row_spans(fb: &mut Framebuffer, y: i32, xs: &Vec<i128>, width: i32, color: Color)
    requires
        width >= 0 || xs@.len() < 2,
    ensures
        final(fb)@ == old(fb)@.paint(
            union_upto(spans(as_ints(xs@), width as int, y as int), 0, xs@.len() as int / 2),
            color,
        ),
        final(fb)@.wf(),
{
    proof {
        use_type_invariant(&*fb);
    }
    let n = xs.len();
    let ghost start = fb@;
    let ghost v = as_ints(xs@);
    proof {
        lemma_paint_union_empty(start, spans(v, width as int, y as int), 0, color);
    }
    let mut k: usize = 0;
    while k < n / 2
        invariant
            start.wf(),
            fb@.wf(),
            n == xs@.len(),
            v == as_ints(xs@),
            width >= 0 || n < 2,
            k <= n / 2,
            fb@ == start.paint(union_upto(spans(v, width as int, y as int), 0, k as int), color),
        decreases n / 2 - k,
    {
        let s = clamp_column(xs[2 * k], width);
        let e = clamp_column(xs[2 * k + 1], width);
        let ghost mid = fb@;
        proof {
            lemma_paint_union_empty(mid, columns(y as int), s as int, color);
        }
        let mut x: i32 = s;
        while x < e
            invariant
                mid.wf(),
                fb@.wf(),
                s <= x,
                s <= e ==> x <= e,
                e < s ==> x == s,
                fb@ == mid.paint(union_upto(columns(y as int), s as int, x as int), color),
            decreases e - x,
        {
            fb.set_pixel(x, y, color);
            proof {
                lemma_paint_extend(
                    mid,
                    columns(y as int),
                    s as int,
                    x as int,
                    point_region(x as int, y as int),
                    color,
                );
            }
            x += 1;
        }
        proof {
            let painted = union_upto(columns(y as int), s as int, x as int);
            let p = spans(v, width as int, y as int);
            assert forall|a: int, b: int| #[trigger] painted(a, b) == p(k as int, a, b) by {
                if s <= a < e && b == y {
                    assert(columns(y as int)(a, a, b));
                }
            }
            lemma_paint_extend(start, p, 0, k as int, painted, color);
        }
        k += 1;
    }
}

/// An edge whose ends both lie in rows `lo..=hi` crosses no row outside `lo..hi`.
pub proof fn lemma_contour_no_crossings(points: Seq<Point>, k: int, y: int, lo: int, hi: int)
    requires
        0 <= k <= points.len(),
        forall|j: int| 0 <= j < points.len() ==> lo <= (#[trigger] points[j]).y <= hi,
        y < lo || y >= hi,
    ensures
        contour_crossings(points, k, y).len() == 0,
    decreases k,
{
    if k > 0 {
        lemma_contour_no_crossings(points, k - 1, y, lo, hi);
        let nx = next_index(k - 1, points.len() as int);
        assert(lo <= points[k - 1].y <= hi);
        assert(lo <= points[nx].y <= hi);
    }
}

/// When every point of every contour lies in rows `lo..=hi`, no row outside
/// `lo..hi` has a crossing.
pub proof fn lemma_row_no_crossings(contours: Seq<Seq<Point>>, y: int, lo: int, hi: int)
    requires
        forall|i: int, j: int|
            0 <= i < contours.len() && 0 <= j < contours[i].len() ==> lo <= (
            #[trigger] contours[i][j]).y <= hi,
        y < lo || y >= hi,
    ensures
        row_crossings(contours, y).len() == 0,
    decreases contours.len(),
{
    if contours.len() > 0 {
        let last = contours.last();
        let rest = contours.drop_last();
        assert forall|i: int, j: int|
            0 <= i < rest.len() && 0 <= j < rest[i].len() implies lo <= (
            #[trigger] rest[i][j]).y <= hi by {
            assert(rest[i] == contours[i]);
        }
        lemma_row_no_crossings(rest, y, lo, hi);
        assert forall|j: int| 0 <= j < last.len() implies lo <= (#[trigger] last[j]).y <= hi by {
            assert(contours[contours.len() - 1][j] == last[j]);
        }
        lemma_contour_no_crossings(last, last.len() as int, y, lo, hi);
    }
}

/// Contours without points have no crossings.
pub proof fn lemma_empty_contours_no_crossings(contours: Seq<Seq<Point>>, y: int)
    requires
        forall|i: int| 0 <= i < contours.len() ==> (#[trigger] contours[i]).len() == 0,
    ensures
        row_crossings(contours, y).len() == 0,
    decreases contours.len(),
{
    if contours.len() > 0 {
        let rest = contours.drop_last();
        assert forall|i: int| 0 <= i < rest.len() implies (#[trigger] rest[i]).len() == 0 by {
            assert(rest[i] == contours[i]);
        }
        lemma_empty_contours_no_crossings(rest, y);
        assert(contours[contours.len() - 1].len() == 0);
    }
}

/// Fills the inside of one or more closed contours with the even-odd rule.
/// Each row between the contours' lowest and highest `y` (limited to the
/// framebuffer) is cut by the horizontal line through its centre; the
/// crossings with non-horizontal edges are rounded up, sorted, and the pixels
/// from each crossing `2j` up to crossing `2j + 1` are painted. A contour
/// inside another one therefore leaves a hole.
///
/// Each crossing is computed exactly, as a fraction, and then rounded up.
/// A floating-point computation of the same crossing can differ where the
/// exact crossing falls on a whole column and rounding error pushes it just
/// past it: for the edge from (0, 0) to (42, 7) on row 4 the exact crossing
/// is 27, while `f64` arithmetic gives 27.000000000000004, whose ceiling is 28.
/// This function paints from the exact value.
pub fn fill_polygon_scanline(framebuffer: &mut Framebuffer, contours: &[&[Point]], fill_color: Color)
    requires
        as_i32(old(framebuffer)@.height) < 0 ==> forall|i: int|
            0 <= i < contours@.len() ==> (#[trigger] contours@[i])@.len() == 0,
        as_i32(old(framebuffer)@.width) < 0 ==> forall|y: int|
            0 <= y < as_i32(old(framebuffer)@.height) ==> #[trigger] row_crossings(
                contour_seqs(contours@),
                y,
            ).len() < 2,
    ensures
        final(framebuffer)@ == old(framebuffer)@.paint(
            fill_region(
                contour_seqs(contours@),
                as_i32(old(framebuffer)@.width),
                as_i32(old(framebuffer)@.height),
            ),
            fill_color,
        ),
        final(framebuffer)@.wf(),
{
    proof {
        use_type_invariant(&*framebuffer);
    }
    let ghost start = framebuffer@;
    let ghost cs = contour_seqs(contours@);
    let ghost wi = as_i32(start.width);
    let ghost hi = as_i32(start.height);
    let ghost region = fill_region(cs, wi, hi);
    if contours.len() == 0 {
        proof {
            assert forall|x: int, y: int| start.in_bounds(x, y) implies !region(x, y) by {
                lemma_empty_contours_no_crossings(cs, y);
            }
            lemma_paint_nothing(start, region, fill_color);
        }
        return ;
    }
    let bounds = vertical_bounds(contours);
    let (min_y, max_y) = match bounds {
        None => {
            proof {
                assert forall|i: int| 0 <= i < cs.len() implies (#[trigger] cs[i]).len() == 0 by {
                    assert(cs[i] == contours@[i]@);
                }
                assert forall|x: int, y: int| start.in_bounds(x, y) implies !region(x, y) by {
                    lemma_empty_contours_no_crossings(cs, y);
                }
                lemma_paint_nothing(start, region, fill_color);
            }
            return ;
        },
        Some(b) => b,
    };
    let height: i32 = framebuffer.height() as i32;
    let width: i32 = framebuffer.width() as i32;
    assert(height == hi && width == wi);
    assert(height >= 0) by {
        if height < 0 {
            let (i, j) = choose|i: int, j: int|
                0 <= i < contours@.len() && 0 <= j < contours@[i]@.len() && (
                #[trigger] contours@[i]@[j]).y == min_y;
            assert(contours@[i]@.len() == 0);
        }
    }
    proof {
        assert forall|i: int, j: int|
            0 <= i < cs.len() && 0 <= j < cs[i].len() implies min_y <= (
            #[trigger] cs[i][j]).y <= max_y by {
            assert(cs[i] == contours@[i]@);
            assert(min_y <= contours@[i]@[j].y <= max_y);
        }
    }
    let start_y: i32 = if min_y < 0 {
        0
    } else if min_y > height {
        height
    } else {
        min_y
    };
    let end_y: i32 = if max_y < 0 {
        0
    } else if max_y > height {
        height
    } else {
        max_y
    };
    let ghost rows = row_fills(cs, wi);
    proof {
        lemma_paint_union_empty(start, rows, start_y as int, fill_color);
    }
    let mut y: i32 = start_y;
    while y < end_y
        invariant
            start.wf(),
            framebuffer@.wf(),
            cs == contour_seqs(contours@),
            rows == row_fills(cs, wi),
            wi == width,
            hi == height,
            0 <= start_y <= height,
            width < 0 ==> forall|yy: int|
                0 <= yy < height ==> #[trigger] row_crossings(cs, yy).len() < 2,
            end_y <= height,
            start_y <= y,
            start_y <= end_y ==> y <= end_y,
            framebuffer@ == start.paint(union_upto(rows, start_y as int, y as int), fill_color),
        decreases end_y - y,
    {
        let xs = row_crossing_list(contours, y);
        let sorted = sort_crossings(&xs);
        proof {
            assert(row_crossings(cs, y as int).len() == xs@.len());
        }
        fill_row_spans(framebuffer, y, &sorted, width, fill_color);
        proof {
            let v = as_ints(sorted@);
            let next = union_upto(spans(v, width as int, y as int), 0, sorted@.len() as int / 2);
            assert forall|a: int, b: int| #[trigger] next(a, b) == rows(y as int, a, b) by {
                lemma_spans_follow_rule(v, width as int, y as int, a, b);
                assert(count_le(v, a) == count_le(as_ints(xs@), a));
            }
            lemma_paint_extend(start, rows, start_y as int, y as int, next, fill_color);
        }
        y += 1;
    }
    proof {
        let done = union_upto(rows, start_y as int, y as int);
        assert forall|a: int, b: int| start.in_bounds(a, b) implies done(a, b) == region(a, b) by {
            if start_y <= b < y {
                if rows(b, a, b) {
                    assert(done(a, b));
                }
            } else if 0 <= b < hi {
                lemma_row_no_crossings(cs, b, min_y as int, max_y as int);
            }
        }
        lemma_paint_congruent(start, done, region, fill_color);
    }
}

/// `ceil_div` is the ceiling: the least `q` with `n <= q * d`.
pub proof fn lemma_ceil_div(n: int, d: int)
    requires
        d > 0,
    ensures
        (ceil_div(n, d) - 1) * d < n <= ceil_div(n, d) * d,
{
    lemma_fundamental_div_mod(-n, d);
    let q = (-n) / d;
    let r = (-n) % d;
    assert((ceil_div(n, d) - 1) * d < n <= ceil_div(n, d) * d) by (nonlinear_arith)
        requires
            -n == d * q + r,
            0 <= r < d,
            ceil_div(n, d) == -q,
    ;
}

/// Horizontal edges never cross a row.
pub proof fn lemma_horizontal_edge_never_crosses(a: Point, b: Point, y: int)
    requires
        a.y == b.y,
    ensures
        !crosses(a, b, y),
{
}

/// An edge crosses row `y` exactly when one of its ends lies at or above
/// `y` (in row order) and the other below it.
pub proof fn lemma_crosses_iff_sides_differ(a: Point, b: Point, y: int)
    ensures
        crosses(a, b, y) == ((a.y <= y) != (b.y <= y)),
{
}

/// On the row of a vertex shared by two edges, the vertex is counted once
/// when the contour passes through the row, and zero or two times when it
/// only touches it, so the parity of the row is right in every case.
pub proof fn lemma_shared_vertex(a: Point, v: Point, c: Point)
    ensures
        (a.y < v.y < c.y || c.y < v.y < a.y) ==> crosses(a, v, v.y as int) != crosses(
            v,
            c,
            v.y as int,
        ),
        (a.y < v.y && c.y < v.y) ==> !crosses(a, v, v.y as int) && !crosses(v, c, v.y as int),
        (a.y > v.y && c.y > v.y) ==> crosses(a, v, v.y as int) && crosses(v, c, v.y as int),
{
}

/// The parity of the crossings of the first `k` edges of a contour tells
/// whether the end of edge `k - 1` lies on the other side of the row than
/// the first point.
proof fn lemma_contour_crossings_parity(points: Seq<Point>, k: int, y: int)
    requires
        1 <= k <= points.len(),
    ensures
        (contour_crossings(points, k, y).len() % 2 == 1) == ((points[0].y <= y) != (points[next_index(
            k - 1,
            points.len() as int,
        )].y <= y)),
    decreases k,
{
    let (a, b) = edge_at(points, k - 1);
    lemma_crosses_iff_sides_differ(a, b, y);
    let step: int = if crosses(a, b, y) {
        1
    } else {
        0
    };
    assert(contour_crossings(points, k, y).len() == contour_crossings(points, k - 1, y).len()
        + step);
    if k > 1 {
        lemma_contour_crossings_parity(points, k - 1, y);
        assert(next_index(k - 2, points.len() as int) == k - 1);
    } else {
        assert(contour_crossings(points, 0, y).len() == 0);
    }
}

/// A closed contour crosses every row an even number of times.
pub proof fn lemma_closed_contour_even(points: Seq<Point>, y: int)
    ensures
        contour_crossings(points, points.len() as int, y).len() % 2 == 0,
{
    if points.len() > 0 {
        lemma_contour_crossings_parity(points, points.len() as int, y);
    }
}

/// Any set of closed contours crosses every row an even number of times, so
/// every span has its closing crossing.
pub proof fn lemma_row_crossings_even(contours: Seq<Seq<Point>>, y: int)
    ensures
        row_crossings(contours, y).len() % 2 == 0,
    decreases contours.len(),
{
    if contours.len() > 0 {
        lemma_row_crossings_even(contours.drop_last(), y);
        lemma_closed_contour_even(contours.last(), y);
    }
}

/// The crossings of two lists of contours together are those of the first
/// followed by those of the second.
pub proof fn lemma_row_crossings_concat(first: Seq<Seq<Point>>, second: Seq<Seq<Point>>, y: int)
    ensures
        row_crossings(first + second, y) == row_crossings(first, y) + row_crossings(second, y),
    decreases second.len(),
{
    if second.len() == 0 {
        assert(first + second =~= first);
        assert(row_crossings(first, y) + row_crossings(second, y) =~= row_crossings(first, y));
    } else {
        lemma_row_crossings_concat(first, second.drop_last(), y);
        assert((first + second).drop_last() =~= first + second.drop_last());
        assert((first + second).last() == second.last());
        assert(row_crossings(first + second, y) =~= row_crossings(first, y) + row_crossings(
            second,
            y,
        ));
    }
}

/// On closed contours the even-odd rule is plain parity: a column is inside
/// exactly when an odd number of crossings lie at or left of it.
pub proof fn lemma_covers_is_parity(contours: Seq<Seq<Point>>, y: int, x: int)
    ensures
        row_covers(row_crossings(contours, y), x) == (count_le(row_crossings(contours, y), x) % 2
            == 1),
{
    lemma_row_crossings_even(contours, y);
    lemma_count_le_bounded(row_crossings(contours, y), x);
}

/// Filling several contours at once combines them by parity: a pixel is
/// painted when it is inside exactly one of the two groups, so a contour
/// lying inside another cuts a hole into it.
pub proof fn lemma_even_odd_combines(
    first: Seq<Seq<Point>>,
    second: Seq<Seq<Point>>,
    width: int,
    height: int,
    x: int,
    y: int,
)
    ensures
        fill_region(first + second, width, height)(x, y) == (0 <= x < width && 0 <= y < height && (
        fill_region(first, width, height)(x, y) != fill_region(second, width, height)(x, y))),
{
    lemma_row_crossings_concat(first, second, y);
    lemma_count_le_concat(row_crossings(first, y), row_crossings(second, y), x);
    lemma_covers_is_parity(first + second, y, x);
    lemma_covers_is_parity(first, y, x);
    lemma_covers_is_parity(second, y, x);
}

/// The fill paints only rows from the lowest `y` of the contours up to, not
/// including, the highest.
pub proof fn lemma_fill_between_extremes(
    contours: Seq<Seq<Point>>,
    width: int,
    height: int,
    lo: int,
    hi: int,
    x: int,
    y: int,
)
    requires
        forall|i: int, j: int|
            0 <= i < contours.len() && 0 <= j < contours[i].len() ==> lo <= (
            #[trigger] contours[i][j]).y <= hi,
        fill_region(contours, width, height)(x, y),
    ensures
        lo <= y < hi,
{
    if y < lo || y >= hi {
        lemma_row_no_crossings(contours, y, lo, hi);
    }
}

/// The crossing of edge `i` with row `y`, as a sequence of zero or one column.
pub open spec fn edge_crossing_seq(points: Seq<Point>, i: int, y: int) -> Seq<int> {
    let (a, b) = edge_at(points, i);
    if crosses(a, b, y) {
        seq![crossing_x(a, b, y)]
    } else {
        seq![]
    }
}

/// The crossings of edges `lo..hi` with row `y`, in edge order.
pub open spec fn edge_range_crossings(points: Seq<Point>, lo: int, hi: int, y: int) -> Seq<int>
    decreases hi - lo,
{
    if hi <= lo {
        seq![]
    } else {
        edge_range_crossings(points, lo, hi - 1, y) + edge_crossing_seq(points, hi - 1, y)
    }
}

/// Two rows of crossings that give every column the same count and have the
/// same length: the even-odd rule cannot tell them apart.
pub open spec fn same_counts(s: Seq<int>, t: Seq<int>) -> bool {
    s.len() == t.len() && forall|x: int| #[trigger] count_le(s, x) == count_le(t, x)
}

proof fn lemma_contour_crossings_range(points: Seq<Point>, k: int, y: int)
    requires
        k >= 0,
    ensures
        contour_crossings(points, k, y) == edge_range_crossings(points, 0, k, y),
    decreases k,
{
    if k > 0 {
        lemma_contour_crossings_range(points, k - 1, y);
    }
}

proof fn lemma_edge_range_split(points: Seq<Point>, lo: int, mid: int, hi: int, y: int)
    requires
        lo <= mid <= hi,
    ensures
        edge_range_crossings(points, lo, hi, y) == edge_range_crossings(points, lo, mid, y)
            + edge_range_crossings(points, mid, hi, y),
    decreases hi - mid,
{
    if hi == mid {
        assert(edge_range_crossings(points, lo, mid, y) + edge_range_crossings(points, mid, hi, y)
            =~= edge_range_crossings(points, lo, mid, y));
    } else {
        lemma_edge_range_split(points, lo, mid, hi - 1, y);
        assert(edge_range_crossings(points, lo, hi, y) =~= edge_range_crossings(points, lo, mid, y)
            + edge_range_crossings(points, mid, hi, y));
    }
}

proof fn lemma_edge_range_shift(q: Seq<Point>, p: Seq<Point>, lo: int, hi: int, off: int, y: int)
    requires
        forall|i: int| lo <= i < hi ==> #[trigger] edge_at(q, i) == edge_at(p, i + off),
    ensures
        edge_range_crossings(q, lo, hi, y) == edge_range_crossings(p, lo + off, hi + off, y),
    decreases hi - lo,
{
    if hi > lo {
        lemma_edge_range_shift(q, p, lo, hi - 1, off, y);
        assert(edge_at(q, hi - 1) == edge_at(p, hi - 1 + off));
    }
}

/// Concatenating in the other order keeps every count.
proof fn lemma_same_counts_swap(a: Seq<int>, b: Seq<int>)
    ensures
        same_counts(a + b, b + a),
{
    assert forall|x: int| #[trigger] count_le(a + b, x) == count_le(b + a, x) by {
        lemma_count_le_concat(a, b, x);
        lemma_count_le_concat(b, a, x);
    }
}

/// Starting a closed contour at another of its points keeps the crossings of
/// every row, up to their order.
pub proof fn lemma_rotation_same_crossings(points: Seq<Point>, k: int, y: int)
    requires
        0 <= k < points.len(),
    ensures
        same_counts(
            contour_crossings(rotate(points, k), points.len() as int, y),
            contour_crossings(points, points.len() as int, y),
        ),
{
    let n = points.len() as int;
    let q = rotate(points, k);
    assert(q.len() == n);
    lemma_contour_crossings_range(q, n, y);
    lemma_contour_crossings_range(points, n, y);
    lemma_edge_range_split(q, 0, n - k, n, y);
    lemma_edge_range_split(points, 0, k, n, y);
    assert forall|i: int| 0 <= i < n - k implies #[trigger] edge_at(q, i) == edge_at(points, i + k) by {
        lemma_rotate_edges(points, k, i);
    }
    lemma_edge_range_shift(q, points, 0, n - k, k, y);
    assert forall|i: int| n - k <= i < n implies #[trigger] edge_at(q, i) == edge_at(
        points,
        i + (k - n),
    ) by {
        lemma_rotate_edges(points, k, i);
    }
    lemma_edge_range_shift(q, points, n - k, n, k - n, y);
    lemma_same_counts_swap(edge_range_crossings(points, k, n, y), edge_range_crossings(points, 0, k, y));
}

/// `q` is the contour `p`, possibly started at another of its points.
pub open spec fn is_rotation_of(q: Seq<Point>, p: Seq<Point>) -> bool {
    q == p || exists|k: int| 0 <= k < p.len() && q == #[trigger] rotate(p, k)
}

/// `second` holds the contours of `first` in another order (`second[i]` is
/// `first[perm[i]]`), each possibly started at another of its points.
pub open spec fn rearranges(second: Seq<Seq<Point>>, first: Seq<Seq<Point>>, perm: Seq<int>) -> bool {
    &&& second.len() == first.len()
    &&& perm.len() == first.len()
    &&& forall|i: int| 0 <= i < perm.len() ==> 0 <= #[trigger] perm[i] < first.len()
    &&& forall|i: int, j: int| 0 <= i < j < perm.len() ==> perm[i] != perm[j]
    &&& forall|i: int| 0 <= i < second.len() ==> is_rotation_of(#[trigger] second[i], first[perm[i]])
}

proof fn lemma_same_counts_concat(a: Seq<int>, b: Seq<int>, c: Seq<int>, d: Seq<int>)
    requires
        same_counts(a, c),
        same_counts(b, d),
    ensures
        same_counts(a + b, c + d),
{
    assert forall|x: int| #[trigger] count_le(a + b, x) == count_le(c + d, x) by {
        lemma_count_le_concat(a, b, x);
        lemma_count_le_concat(c, d, x);
        assert(count_le(a, x) == count_le(c, x));
        assert(count_le(b, x) == count_le(d, x));
    }
}

/// Rearranged contours cross every row with the same counts.
pub proof fn lemma_rearranged_same_crossings(
    second: Seq<Seq<Point>>,
    first: Seq<Seq<Point>>,
    perm: Seq<int>,
    y: int,
)
    requires
        rearranges(second, first, perm),
    ensures
        same_counts(row_crossings(second, y), row_crossings(first, y)),
    decreases second.len(),
{
    let n = second.len() as int;
    if n == 0 {
        assert(first.len() == 0);
    } else {
        let j = perm[n - 1];
        let rest_first = first.remove(j);
        let rest_second = second.drop_last();
        let rest_perm = perm.drop_last().map_values(|t: int| if t < j {
            t
        } else {
            t - 1
        });
        assert forall|i: int| 0 <= i < n - 1 implies perm[i] != j by {
            assert(perm[i] != perm[n - 1]);
        }
        assert forall|i: int| 0 <= i < rest_second.len() implies is_rotation_of(
            #[trigger] rest_second[i],
            rest_first[rest_perm[i]],
        ) by {
            assert(rest_second[i] == second[i]);
            assert(is_rotation_of(second[i], first[perm[i]]));
            assert(rest_first[rest_perm[i]] == first[perm[i]]);
        }
        assert forall|a: int, b: int| 0 <= a < b < rest_perm.len() implies rest_perm[a]
            != rest_perm[b] by {
            assert(perm[a] != perm[b]);
            assert(perm[a] != j && perm[b] != j);
        }
        assert(rearranges(rest_second, rest_first, rest_perm));
        lemma_rearranged_same_crossings(rest_second, rest_first, rest_perm, y);
        // The last contour of `second` against contour `j` of `first`.
        let c2 = second[n - 1];
        let c1 = first[j];
        assert(is_rotation_of(c2, c1));
        let x2 = contour_crossings(c2, c2.len() as int, y);
        let x1 = contour_crossings(c1, c1.len() as int, y);
        if c2 == c1 {
            assert(same_counts(x2, x1));
        } else {
            let k = choose|k: int| 0 <= k < c1.len() && c2 == #[trigger] rotate(c1, k);
            lemma_rotation_same_crossings(c1, k, y);
            assert(c2.len() == c1.len());
        }
        assert(row_crossings(second, y) == row_crossings(rest_second, y) + x2);
        // Split `first` around contour `j`.
        let pre = first.subrange(0, j);
        let post = first.subrange(j + 1, first.len() as int);
        assert(first =~= pre + (seq![c1] + post));
        assert(rest_first =~= pre + post);
        lemma_row_crossings_concat(pre, seq![c1] + post, y);
        lemma_row_crossings_concat(seq![c1], post, y);
        lemma_row_crossings_concat(pre, post, y);
        assert(seq![c1].drop_last() =~= Seq::<Seq<Point>>::empty());
        assert(seq![c1].last() == c1);
        assert(row_crossings(Seq::<Seq<Point>>::empty(), y) =~= Seq::<int>::empty());
        assert(row_crossings(seq![c1], y) == row_crossings(seq![c1].drop_last(), y) + x1);
        assert(row_crossings(seq![c1], y) =~= x1);
        let rp = row_crossings(pre, y);
        let rq = row_crossings(post, y);
        // second: (rp + rq) + x2 ; first: rp + (x1 + rq)
        lemma_same_counts_concat(row_crossings(rest_second, y), x2, rp + rq, x1);
        lemma_same_counts_swap(rq, x1);
        assert forall|x: int| #[trigger] count_le(row_crossings(first, y), x) == count_le(
            (rp + rq) + x1,
            x,
        ) by {
            lemma_count_le_concat(rp, x1 + rq, x);
            lemma_count_le_concat(rp + rq, x1, x);
            lemma_count_le_concat(rp, rq, x);
            lemma_count_le_concat(x1, rq, x);
        }
        assert forall|x: int| #[trigger] count_le(row_crossings(second, y), x) == count_le(
            row_crossings(first, y),
            x,
        ) by {
            assert(count_le(row_crossings(second, y), x) == count_le((rp + rq) + x1, x));
        }
    }
}

/// The fill depends only on the contours' edges: listing the contours in
/// another order, or starting any of them at another of its points, paints
/// the same pixels.
pub proof fn lemma_fill_ignores_contour_order(
    v: FrameView,
    second: Seq<Seq<Point>>,
    first: Seq<Seq<Point>>,
    perm: Seq<int>,
    width: int,
    height: int,
    c: Color,
)
    requires
        rearranges(second, first, perm),
    ensures
        forall|x: int, y: int| #[trigger] fill_region(second, width, height)(x, y) == fill_region(first, width, height)(x, y),
        v.paint(fill_region(second, width, height), c) == v.paint(fill_region(first, width, height), c),
{
    assert forall|x: int, y: int| #[trigger] fill_region(second, width, height)(x, y) == fill_region(first, width, height)(x, y) by {
        lemma_rearranged_same_crossings(second, first, perm, y);
        assert(count_le(row_crossings(second, y), x) == count_le(row_crossings(first, y), x));
    }
    assert(v.paint(fill_region(second, width, height), c) =~= v.paint(fill_region(first, width, height), c));
}

/// A contour listed twice cancels itself: every crossing comes in pairs, so
/// the fill paints nothing.
pub proof fn lemma_doubled_contours_fill_nothing(
    v: FrameView,
    contours: Seq<Seq<Point>>,
    width: int,
    height: int,
    c: Color,
)
    ensures
        forall|x: int, y: int| !#[trigger] fill_region(contours + contours, width, height)(x, y),
        v.paint(fill_region(contours + contours, width, height), c) == v,
{
    assert forall|x: int, y: int| !#[trigger] fill_region(contours + contours, width, height)(x, y) by {
        lemma_even_odd_combines(contours, contours, width, height, x, y);
    }
    assert(v.paint(fill_region(contours + contours, width, height), c) =~= v);
}

} // verus!
