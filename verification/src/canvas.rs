//! Mathematical model of a pixel grid and the facts about it that the drawing code uses.
use vstd::prelude::*;

verus! {

/// A 16-bit RGB565 colour: 5 bits red, 6 bits green, 5 bits blue.
#[derive(Clone, Copy, PartialEq, Eq, Structural, Debug)]
pub struct Rgb565(pub u16);

/// The abstract contents of a row-major pixel grid.
pub struct Canvas {
    pub width: nat,
    pub height: nat,
    pub pixels: Seq<Rgb565>,
}

impl Canvas {
    /// The pixel sequence holds exactly one entry per grid position.
    pub open spec fn wf(self) -> bool {
        self.pixels.len() == self.width * self.height
    }

    /// Whether `(x, y)` is a position of the grid.
    pub open spec fn in_bounds(self, x: int, y: int) -> bool {
        0 <= x < self.width && 0 <= y < self.height
    }

    /// The colour at column `x`, row `y`.
    pub open spec fn at(self, x: int, y: int) -> Rgb565 {
        self.pixels[y * self.width + x]
    }
}

/// Every pixel for which `pred` holds takes `color`; every other pixel keeps its colour.
pub open spec fn paint(c: Canvas, pred: spec_fn(int, int) -> bool, color: Rgb565) -> Canvas {
    Canvas {
        width: c.width,
        height: c.height,
        pixels: Seq::new(
            c.pixels.len(),
            |i: int|
                if pred(i % (c.width as int), i / (c.width as int)) {
                    color
                } else {
                    c.pixels[i]
                },
        ),
    }
}

/// A grid of the given size in which every pixel has colour `color`.
pub open spec fn solid(width: nat, height: nat, color: Rgb565) -> Canvas {
    Canvas { width, height, pixels: Seq::new(width * height, |i: int| color) }
}

/// Position `(x, y)` of a `w` by `h` grid is at index `y * w + x`, and that index gives the
/// position back.
pub proof fn lemma_index_in_grid(w: int, h: int, x: int, y: int)
    requires
        0 <= x < w,
        0 <= y < h,
    ensures
        0 <= y * w + x < w * h,
        (y * w + x) % w == x,
        (y * w + x) / w == y,
{
    assert(0 <= y * w) by (nonlinear_arith)
        requires
            0 <= y,
            0 <= w,
    ;
    assert(y * w + x < w * h) by (nonlinear_arith)
        requires
            0 <= x < w,
            0 <= y < h,
    ;
    vstd::arithmetic::div_mod::lemma_fundamental_div_mod_converse(y * w + x, w, y, x);
}

/// Every index of a `w` by `h` grid is the index of a position inside the grid.
pub proof fn lemma_coords_of_index(w: int, h: int, i: int)
    requires
        0 <= w,
        0 <= h,
        0 <= i < w * h,
    ensures
        w > 0,
        0 <= i % w < w,
        0 <= i / w < h,
        i == (i / w) * w + i % w,
{
    if w == 0 {
        assert(w * h == 0);
    }
    vstd::arithmetic::div_mod::lemma_fundamental_div_mod(i, w);
    vstd::arithmetic::div_mod::lemma_mod_bound(i, w);
    vstd::arithmetic::div_mod::lemma_div_pos_is_pos(i, w);
    let q = i / w;
    let r = i % w;
    assert(q < h) by (nonlinear_arith)
        requires
            i == w * q + r,
            0 <= r < w,
            i < w * h,
            w > 0,
    ;
    assert(i == q * w + r) by (nonlinear_arith)
        requires
            i == w * q + r,
    ;
}

/// Painting changes exactly the pixels that satisfy the predicate.
pub proof fn lemma_paint_at(c: Canvas, pred: spec_fn(int, int) -> bool, color: Rgb565, x: int, y: int)
    requires
        c.wf(),
        c.in_bounds(x, y),
    ensures
        paint(c, pred, color).wf(),
        paint(c, pred, color).at(x, y) == (if pred(x, y) {
            color
        } else {
            c.at(x, y)
        }),
{
    lemma_index_in_grid(c.width as int, c.height as int, x, y);
}

/// Two predicates that agree on every in-bounds pixel paint the same grid.
pub proof fn lemma_paint_ext(
    c: Canvas,
    p1: spec_fn(int, int) -> bool,
    p2: spec_fn(int, int) -> bool,
    color: Rgb565,
)
    requires
        c.wf(),
        forall|x: int, y: int| c.in_bounds(x, y) ==> p1(x, y) == p2(x, y),
    ensures
        paint(c, p1, color) == paint(c, p2, color),
{
    let a = paint(c, p1, color);
    let b = paint(c, p2, color);
    assert forall|i: int| 0 <= i < c.pixels.len() implies a.pixels[i] == b.pixels[i] by {
        lemma_coords_of_index(c.width as int, c.height as int, i);
        assert(c.in_bounds(i % (c.width as int), i / (c.width as int)));
    }
    assert(a.pixels =~= b.pixels);
}

/// Painting twice with one colour is painting once with the union of the predicates.
pub proof fn lemma_paint_union(
    c: Canvas,
    p1: spec_fn(int, int) -> bool,
    p2: spec_fn(int, int) -> bool,
    color: Rgb565,
)
    ensures
        paint(paint(c, p1, color), p2, color) == paint(c, |x: int, y: int| p1(x, y) || p2(x, y), color),
{
    let a = paint(paint(c, p1, color), p2, color);
    let b = paint(c, |x: int, y: int| p1(x, y) || p2(x, y), color);
    assert(a.pixels =~= b.pixels);
}

/// A predicate that holds nowhere leaves the grid as it was.
pub proof fn lemma_paint_nothing(c: Canvas, pred: spec_fn(int, int) -> bool, color: Rgb565)
    requires
        c.wf(),
        forall|x: int, y: int| c.in_bounds(x, y) ==> !pred(x, y),
    ensures
        paint(c, pred, color) == c,
{
    let a = paint(c, pred, color);
    assert forall|i: int| 0 <= i < c.pixels.len() implies a.pixels[i] == c.pixels[i] by {
        lemma_coords_of_index(c.width as int, c.height as int, i);
        assert(c.in_bounds(i % (c.width as int), i / (c.width as int)));
    }
    assert(a.pixels =~= c.pixels);
}

/// Two well-formed grids of one size that agree at every position are equal.
pub proof fn lemma_canvas_ext(a: Canvas, b: Canvas)
    requires
        a.wf(),
        b.wf(),
        a.width == b.width,
        a.height == b.height,
        forall|x: int, y: int| a.in_bounds(x, y) ==> a.at(x, y) == b.at(x, y),
    ensures
        a == b,
{
    assert forall|i: int| 0 <= i < a.pixels.len() implies a.pixels[i] == b.pixels[i] by {
        let w = a.width as int;
        lemma_coords_of_index(w, a.height as int, i);
        let x = i % w;
        let y = i / w;
        assert(a.in_bounds(x, y));
        assert(a.at(x, y) == b.at(x, y));
        assert(y * w + x == i) by (nonlinear_arith)
            requires
                i == (i / w) * w + i % w,
                x == i % w,
                y == i / w,
        ;
    }
    assert(a.pixels =~= b.pixels);
}

} // verus!

verus! {

/// Painting with `p_done` and then with `q` is painting with `p_next`, when `p_next` is the
/// union of the two on the grid.
pub proof fn lemma_paint_step(
    c: Canvas,
    p_done: spec_fn(int, int) -> bool,
    q: spec_fn(int, int) -> bool,
    p_next: spec_fn(int, int) -> bool,
    color: Rgb565,
)
    requires
        c.wf(),
        forall|x: int, y: int| c.in_bounds(x, y) ==> p_next(x, y) == (p_done(x, y) || q(x, y)),
    ensures
        paint(paint(c, p_done, color), q, color) == paint(c, p_next, color),
{
    lemma_paint_union(c, p_done, q, color);
    lemma_paint_ext(c, |x: int, y: int| p_done(x, y) || q(x, y), p_next, color);
}

} // verus!
