use vstd::prelude::*;
use vstd::arithmetic::div_mod::{lemma_fundamental_div_mod, lemma_fundamental_div_mod_converse};

verus! {

/// An RGBA colour with one byte per channel.
#[derive(Clone, Copy, Debug, PartialEq, Eq, Structural)]
pub struct Color {
    pub r: u8,
    pub g: u8,
    pub b: u8,
    pub a: u8,
}

impl Color {
    /// Builds a colour from its four channels.
    pub fn new(r: u8, g: u8, b: u8, a: u8) -> (c: Color)
        ensures
            c == (Color { r, g, b, a }),
    {
        Color { r, g, b, a }
    }
}

/// A point with integer coordinates; `y` grows downwards.
#[derive(Clone, Copy, Debug, PartialEq, Eq, Structural)]
pub struct Point {
    pub x: i32,
    pub y: i32,
}

impl Point {
    /// Builds a point from its coordinates.
    pub fn new(x: i32, y: i32) -> (p: Point)
        ensures
            p == (Point { x, y }),
    {
        Point { x, y }
    }
}

/// The mathematical model of a framebuffer: its dimensions and its pixels in
/// row-major order (the pixel at column `x` of row `y` sits at `y * width + x`).
#[verifier::ext_equal]
pub struct FrameView {
    pub width: nat,
    pub height: nat,
    pub pixels: Seq<Color>,
}

/// The set of pixels that is exactly one point.
pub open spec fn point_region(x: int, y: int) -> spec_fn(int, int) -> bool {
    |a: int, b: int| a == x && b == y
}

impl FrameView {
    /// The pixel buffer holds exactly one colour per position.
    pub open spec fn wf(self) -> bool {
        self.pixels.len() == self.width * self.height
    }

    pub open spec fn in_bounds(self, x: int, y: int) -> bool {
        0 <= x < self.width && 0 <= y < self.height
    }

    pub open spec fn index_of(self, x: int, y: int) -> int {
        y * self.width + x
    }

    /// The colour at column `x`, row `y`.
    pub open spec fn pixel(self, x: int, y: int) -> Color {
        self.pixels[self.index_of(x, y)]
    }

    /// The column of the pixel stored at index `i`.
    pub open spec fn column_of(self, i: int) -> int {
        i % (self.width as int)
    }

    /// The row of the pixel stored at index `i`.
    pub open spec fn row_of(self, i: int) -> int {
        i / (self.width as int)
    }

    /// The same framebuffer with every pixel of `region` set to `c`; pixels
    /// outside the bounds are ignored.
    pub open spec fn paint(self, region: spec_fn(int, int) -> bool, c: Color) -> FrameView {
        FrameView {
            width: self.width,
            height: self.height,
            pixels: Seq::new(
                self.pixels.len(),
                |i: int|
                    if region(self.column_of(i), self.row_of(i)) {
                        c
                    } else {
                        self.pixels[i]
                    },
            ),
        }
    }

    /// A framebuffer of the given size filled with one colour.
    pub open spec fn filled(width: nat, height: nat, c: Color) -> FrameView {
        FrameView { width, height, pixels: Seq::new(width * height, |i: int| c) }
    }
}

/// Every stored index decodes to an in-bounds position, and back.
pub proof fn lemma_decode(v: FrameView, i: int)
    requires
        v.wf(),
        0 <= i < v.pixels.len(),
    ensures
        v.in_bounds(v.column_of(i), v.row_of(i)),
        v.index_of(v.column_of(i), v.row_of(i)) == i,
{
    let w = v.width as int;
    let h = v.height as int;
    assert(w > 0) by (nonlinear_arith)
        requires
            0 <= i < w * h,
            w >= 0,
            h >= 0,
    ;
    lemma_fundamental_div_mod(i, w);
    let q = i / w;
    let r = i % w;
    assert(0 <= r < w);
    assert(0 <= q < h) by (nonlinear_arith)
        requires
            i == w * q + r,
            0 <= r < w,
            0 <= i < w * h,
    ;
    assert(q * w + r == i) by (nonlinear_arith)
        requires
            i == w * q + r,
    ;
}

/// An in-bounds position is stored at an in-range index that decodes back to it.
pub proof fn lemma_encode(v: FrameView, x: int, y: int)
    requires
        v.wf(),
        v.in_bounds(x, y),
    ensures
        0 <= v.index_of(x, y) < v.pixels.len(),
        v.column_of(v.index_of(x, y)) == x,
        v.row_of(v.index_of(x, y)) == y,
{
    let w = v.width as int;
    let h = v.height as int;
    let i = y * w + x;
    assert(0 <= i < w * h) by (nonlinear_arith)
        requires
            0 <= x < w,
            0 <= y < h,
            i == y * w + x,
    ;
    assert(i == y * w + x);
    lemma_fundamental_div_mod_converse(i, w, y, x);
}

/// Painting changes exactly the in-bounds pixels of the region and keeps the size.
pub proof fn lemma_paint_pixel(v: FrameView, region: spec_fn(int, int) -> bool, c: Color, x: int, y: int)
    requires
        v.wf(),
        v.in_bounds(x, y),
    ensures
        v.paint(region, c).wf(),
        v.paint(region, c).pixel(x, y) == (if region(x, y) { c } else { v.pixel(x, y) }),
{
    lemma_encode(v, x, y);
}

/// Drawing never changes the size of a framebuffer, nor its well-formedness.
pub proof fn lemma_paint_wf(v: FrameView, region: spec_fn(int, int) -> bool, c: Color)
    requires
        v.wf(),
    ensures
        v.paint(region, c).wf(),
        v.paint(region, c).width == v.width,
        v.paint(region, c).height == v.height,
{
}

/// Painting one region and then another with the same colour is painting their union.
pub proof fn lemma_paint_union(
    v: FrameView,
    r1: spec_fn(int, int) -> bool,
    r2: spec_fn(int, int) -> bool,
    c: Color,
)
    ensures
        v.paint(r1, c).paint(r2, c) == v.paint(|x: int, y: int| r1(x, y) || r2(x, y), c),
{
    assert(v.paint(r1, c).paint(r2, c) =~= v.paint(|x: int, y: int| r1(x, y) || r2(x, y), c));
}

/// Painting two regions with one colour gives the same result in either order.
pub proof fn lemma_paint_commutes(
    v: FrameView,
    r1: spec_fn(int, int) -> bool,
    r2: spec_fn(int, int) -> bool,
    c: Color,
)
    ensures
        v.paint(r1, c).paint(r2, c) == v.paint(r2, c).paint(r1, c),
{
    assert(v.paint(r1, c).paint(r2, c) =~= v.paint(r2, c).paint(r1, c));
}

/// Only the in-bounds part of a region matters to painting.
pub proof fn lemma_paint_congruent(
    v: FrameView,
    r1: spec_fn(int, int) -> bool,
    r2: spec_fn(int, int) -> bool,
    c: Color,
)
    requires
        v.wf(),
        forall|x: int, y: int| v.in_bounds(x, y) ==> r1(x, y) == r2(x, y),
    ensures
        v.paint(r1, c) == v.paint(r2, c),
{
    assert forall|i: int| 0 <= i < v.pixels.len() implies r1(v.column_of(i), v.row_of(i)) == r2(
        v.column_of(i),
        v.row_of(i),
    ) by {
        lemma_decode(v, i);
    }
    assert(v.paint(r1, c) =~= v.paint(r2, c));
}

/// Painting a region that holds no in-bounds pixel changes nothing.
pub proof fn lemma_paint_nothing(v: FrameView, r: spec_fn(int, int) -> bool, c: Color)
    requires
        v.wf(),
        forall|x: int, y: int| v.in_bounds(x, y) ==> !r(x, y),
    ensures
        v.paint(r, c) == v,
{
    assert forall|i: int| 0 <= i < v.pixels.len() implies !r(v.column_of(i), v.row_of(i)) by {
        lemma_decode(v, i);
    }
    assert(v.paint(r, c) =~= v);
}

/// The points listed in `s`, as a region.
pub open spec fn seq_region(s: Seq<(int, int)>) -> spec_fn(int, int) -> bool {
    |x: int, y: int| s.contains((x, y))
}

/// The union, over `lo <= j < hi`, of the regions `p(j, _, _)`.
pub open spec fn union_upto(p: spec_fn(int, int, int) -> bool, lo: int, hi: int) -> spec_fn(
    int,
    int,
) -> bool {
    |x: int, y: int| exists|j: int| lo <= j < hi && #[trigger] p(j, x, y)
}

/// An empty union paints nothing.
pub proof fn lemma_paint_union_empty(v: FrameView, p: spec_fn(int, int, int) -> bool, lo: int, c: Color)
    ensures
        v.paint(union_upto(p, lo, lo), c) == v,
{
    assert(v.paint(union_upto(p, lo, lo), c) =~= v);
}

/// Painting the next member of a union extends the union by one.
pub proof fn lemma_paint_extend(
    v: FrameView,
    p: spec_fn(int, int, int) -> bool,
    lo: int,
    k: int,
    next: spec_fn(int, int) -> bool,
    c: Color,
)
    requires
        lo <= k,
        forall|x: int, y: int| #[trigger] next(x, y) == p(k, x, y),
    ensures
        v.paint(union_upto(p, lo, k), c).paint(next, c) == v.paint(union_upto(p, lo, k + 1), c),
{
    let before = union_upto(p, lo, k);
    let after = union_upto(p, lo, k + 1);
    lemma_paint_union(v, before, next, c);
    let both = |x: int, y: int| before(x, y) || next(x, y);
    assert forall|x: int, y: int| #[trigger] both(x, y) == after(x, y) by {
        if after(x, y) {
            let j = choose|j: int| lo <= j < k + 1 && #[trigger] p(j, x, y);
            if j < k {
                assert(before(x, y));
            } else {
                assert(next(x, y));
            }
        }
        if before(x, y) {
            let j = choose|j: int| lo <= j < k && #[trigger] p(j, x, y);
            assert(lo <= j < k + 1 && p(j, x, y));
        }
        if next(x, y) {
            assert(lo <= k < k + 1 && p(k, x, y));
        }
    }
    assert(v.paint(both, c) =~= v.paint(after, c));
}

/// Painting one more listed point extends the painted list by that point.
pub proof fn lemma_paint_push(v: FrameView, s: Seq<(int, int)>, x: int, y: int, c: Color)
    ensures
        v.paint(seq_region(s), c).paint(point_region(x, y), c) == v.paint(
            seq_region(s.push((x, y))),
            c,
        ),
{
    lemma_paint_union(v, seq_region(s), point_region(x, y), c);
    let both = |a: int, b: int| seq_region(s)(a, b) || point_region(x, y)(a, b);
    let after = seq_region(s.push((x, y)));
    assert forall|a: int, b: int| #[trigger] both(a, b) == after(a, b) by {
        if s.contains((a, b)) {
            let k = choose|k: int| 0 <= k < s.len() && s[k] == (a, b);
            assert(s.push((x, y))[k] == (a, b));
        }
        if a == x && b == y {
            assert(s.push((x, y))[s.len() as int] == (a, b));
        }
        if after(a, b) {
            let k = choose|k: int| 0 <= k < s.len() + 1 && s.push((x, y))[k] == (a, b);
            if k < s.len() {
                assert(s[k] == (a, b));
            }
        }
    }
    assert(v.paint(both, c) =~= v.paint(after, c));
}

/// Reading a pixel back after setting one: the set position holds the new
/// colour, every other position keeps its colour, and the size is unchanged.
pub proof fn lemma_set_then_get(v: FrameView, x: int, y: int, c: Color, a: int, b: int)
    requires
        v.wf(),
        v.in_bounds(a, b),
    ensures
        v.paint(point_region(x, y), c).wf(),
        v.paint(point_region(x, y), c).width == v.width,
        v.paint(point_region(x, y), c).height == v.height,
        v.paint(point_region(x, y), c).pixel(a, b) == (if a == x && b == y {
            c
        } else {
            v.pixel(a, b)
        }),
{
    lemma_paint_pixel(v, point_region(x, y), c, a, b);
}

/// Setting a pixel outside the framebuffer changes nothing.
pub proof fn lemma_set_outside_ignored(v: FrameView, x: int, y: int, c: Color)
    requires
        v.wf(),
        !v.in_bounds(x, y),
    ensures
        v.paint(point_region(x, y), c) == v,
{
    lemma_paint_nothing(v, point_region(x, y), c);
}

/// Painting a region twice with the same colour is painting it once.
pub proof fn lemma_paint_idempotent(v: FrameView, r: spec_fn(int, int) -> bool, c: Color)
    ensures
        v.paint(r, c).paint(r, c) == v.paint(r, c),
{
    assert(v.paint(r, c).paint(r, c) =~= v.paint(r, c));
}

/// A new framebuffer has every pixel in the background colour.
pub proof fn lemma_filled_pixels(width: nat, height: nat, c: Color, x: int, y: int)
    requires
        FrameView::filled(width, height, c).in_bounds(x, y),
    ensures
        FrameView::filled(width, height, c).wf(),
        FrameView::filled(width, height, c).pixel(x, y) == c,
{
    lemma_encode(FrameView::filled(width, height, c), x, y);
}

/// The RGBA bytes of a run of pixels: each pixel gives its red, green, blue
/// and alpha channel, in order.
pub open spec fn rgba_bytes(pixels: Seq<Color>) -> Seq<u8>
    decreases pixels.len(),
{
    if pixels.len() == 0 {
        seq![]
    } else {
        let c = pixels.last();
        rgba_bytes(pixels.drop_last()) + seq![c.r, c.g, c.b, c.a]
    }
}

/// A fixed-size RGBA image in memory, addressed by integer coordinates.
#[derive(Debug)]
pub struct Framebuffer {
    width: usize,
    height: usize,
    pixels: Vec<Color>,
}

impl Clone for Framebuffer {
    /// A copy with the same size and pixels.
    fn clone(&self) -> (copy: Self)
        ensures
            copy@ == self@,
    {
        proof {
            use_type_invariant(self);
        }
        let n = self.pixels.len();
        let mut pixels: Vec<Color> = Vec::with_capacity(n);
        let mut i: usize = 0;
        while i < n
            invariant
                n == self@.pixels.len(),
                i <= n,
                pixels@ == self@.pixels.take(i as int),
            decreases n - i,
        {
            pixels.push(self.pixels[i]);
            assert(pixels@ =~= self@.pixels.take(i + 1));
            i += 1;
        }
        assert(pixels@ =~= self@.pixels);
        Framebuffer { width: self.width, height: self.height, pixels }
    }
}

impl View for Framebuffer {
    type V = FrameView;

    closed spec fn view(&self) -> FrameView {
        FrameView { width: self.width as nat, height: self.height as nat, pixels: self.pixels@ }
    }
}

impl Framebuffer {
    /// The pixel buffer always holds one colour per position.
    #[verifier::type_invariant]
    pub open spec fn inv(&self) -> bool {
        self@.wf()
    }

    /// A `width` by `height` framebuffer with every pixel set to `background`.
    /// The pixel count must fit in memory: four bytes a pixel, at most
    /// `isize::MAX` bytes.
    pub fn new(width: usize, height: usize, background: Color) -> (fb: Framebuffer)
        requires
            4 * (width * height) <= isize::MAX,
        ensures
            fb@ == FrameView::filled(width as nat, height as nat, background),
            fb@.wf(),
    {
        let n = width * height;
        let mut pixels: Vec<Color> = Vec::with_capacity(n);
        let mut i: usize = 0;
        while i < n
            invariant
                i <= n,
                pixels@ =~= Seq::new(i as nat, |k: int| background),
            decreases n - i,
        {
            pixels.push(background);
            i += 1;
        }
        let fb = Framebuffer { width, height, pixels };
        assert(fb@ =~= FrameView::filled(width as nat, height as nat, background));
        fb
    }

    pub fn width(&self) -> (w: usize)
        ensures
            w == self@.width,
    {
        self.width
    }

    pub fn height(&self) -> (h: usize)
        ensures
            h == self@.height,
    {
        self.height
    }

    /// The pixels in row-major order.
    pub fn pixels(&self) -> (p: &[Color])
        ensures
            p@ == self@.pixels,
    {
        self.pixels.as_slice()
    }

    /// Sets the pixel at `(x, y)` when it lies inside the framebuffer; positions
    /// outside it are ignored.
    pub(crate) fn plot(&mut self, x: i64, y: i64, color: Color)
        ensures
            final(self)@ == old(self)@.paint(point_region(x as int, y as int), color),
            final(self)@.wf(),
    {
        proof {
            use_type_invariant(&*self);
        }
        let ghost v = self@;
        if x < 0 || y < 0 {
            proof {
                lemma_paint_nothing(v, point_region(x as int, y as int), color);
            }
            return;
        }
        let xu = x as u64;
        let yu = y as u64;
        if xu >= self.width as u64 || yu >= self.height as u64 {
            proof {
                lemma_paint_nothing(v, point_region(x as int, y as int), color);
            }
            return;
        }
        let xs = xu as usize;
        let ys = yu as usize;
        let n = self.pixels.len();
        proof {
            lemma_encode(v, xs as int, ys as int);
            assert(ys * self.width + xs < n);
        }
        let idx = ys * self.width + xs;
        // Move the buffer out and back, so that the size invariant holds at every step.
        let mut taken = Framebuffer { width: 0, height: 0, pixels: Vec::new() };
        core::mem::swap(self, &mut taken);
        let Framebuffer { width, height, mut pixels } = taken;
        pixels.set(idx, color);
        *self = Framebuffer { width, height, pixels };
        proof {
            let target = v.paint(point_region(x as int, y as int), color);
            assert forall|i: int| 0 <= i < v.pixels.len() implies #[trigger] self@.pixels[i]
                == target.pixels[i] by {
                lemma_decode(v, i);
            }
            assert(self@ =~= target);
        }
    }

    /// Sets the pixel at `(x, y)` when it lies inside the framebuffer; positions
    /// outside it are ignored.
    pub fn set_pixel(&mut self, x: i32, y: i32, color: Color)
        ensures
            final(self)@ == old(self)@.paint(point_region(x as int, y as int), color),
            final(self)@.wf(),
    {
        self.plot(x as i64, y as i64, color);
    }

    /// The colour at `(x, y)`, or `None` outside the framebuffer.
    pub fn get_pixel(&self, x: i32, y: i32) -> (c: Option<Color>)
        ensures
            c == (if self@.in_bounds(x as int, y as int) {
                Some(self@.pixel(x as int, y as int))
            } else {
                None
            }),
    {
        proof {
            use_type_invariant(self);
        }
        if x < 0 || y < 0 {
            return None;
        }
        let xs = x as usize;
        let ys = y as usize;
        let n = self.pixels.len();
        if xs < self.width && ys < self.height {
            proof {
                lemma_encode(self@, xs as int, ys as int);
                assert(ys * self.width + xs < n);
            }
            Some(self.pixels[ys * self.width + xs])
        } else {
            None
        }
    }

    /// The pixels as bytes, four per pixel in row-major order: red, green,
    /// blue, alpha.
    pub fn as_rgba8(&self) -> (bytes: Vec<u8>)
        ensures
            bytes@ == rgba_bytes(self@.pixels),
    {
        let mut bytes: Vec<u8> = Vec::new();
        let n = self.pixels.len();
        let mut i: usize = 0;
        while i < n
            invariant
                n == self@.pixels.len(),
                i <= n,
                bytes@ == rgba_bytes(self@.pixels.take(i as int)),
            decreases n - i,
        {
            let p = self.pixels[i];
            bytes.push(p.r);
            bytes.push(p.g);
            bytes.push(p.b);
            bytes.push(p.a);
            proof {
                assert(self@.pixels.take(i + 1).drop_last() =~= self@.pixels.take(i as int));
            }
            i += 1;
        }
        assert(self@.pixels.take(n as int) =~= self@.pixels);
        bytes
    }
}

/// The RGBA bytes hold four bytes per pixel: pixel `i` gives bytes `4i` to
/// `4i + 3`, red first.
pub proof fn lemma_rgba_layout(pixels: Seq<Color>)
    ensures
        rgba_bytes(pixels).len() == 4 * pixels.len(),
        forall|i: int|
            0 <= i < pixels.len() ==> {
                &&& rgba_bytes(pixels)[4 * i] == (#[trigger] pixels[i]).r
                &&& rgba_bytes(pixels)[4 * i + 1] == pixels[i].g
                &&& rgba_bytes(pixels)[4 * i + 2] == pixels[i].b
                &&& rgba_bytes(pixels)[4 * i + 3] == pixels[i].a
            },
    decreases pixels.len(),
{
    if pixels.len() > 0 {
        let rest = pixels.drop_last();
        lemma_rgba_layout(rest);
        assert forall|i: int| 0 <= i < pixels.len() implies {
            &&& rgba_bytes(pixels)[4 * i] == (#[trigger] pixels[i]).r
            &&& rgba_bytes(pixels)[4 * i + 1] == pixels[i].g
            &&& rgba_bytes(pixels)[4 * i + 2] == pixels[i].b
            &&& rgba_bytes(pixels)[4 * i + 3] == pixels[i].a
        } by {
            if i < rest.len() {
                assert(rest[i] == pixels[i]);
            }
        }
    }
}

} // verus!
