//! Full-screen test patterns.
use vstd::prelude::*;
use crate::canvas::{self, Canvas, Rgb565};
use crate::framebuffer::{self, FrameBuffer};
use crate::render::primitives::{self, fill_rect, draw_rect_outline, draw_text_5x7, draw_circle_ring, draw_line};

verus! {

pub open spec fn red() -> Rgb565 { Rgb565(0xF800) }
pub open spec fn green() -> Rgb565 { Rgb565(0x07E0) }
pub open spec fn blue() -> Rgb565 { Rgb565(0x001F) }
pub open spec fn white() -> Rgb565 { Rgb565(0xFFFF) }
pub open spec fn yellow() -> Rgb565 { Rgb565(0xFFE0) }
pub open spec fn cyan() -> Rgb565 { Rgb565(0x07FF) }
pub open spec fn magenta() -> Rgb565 { Rgb565(0xF81F) }
pub open spec fn black() -> Rgb565 { Rgb565(0x0000) }

/// The quadrant pattern: top-left red, top-right green, bottom-left blue, bottom-right
/// yellow, split at half the width and half the height (rounded down).
pub open spec fn quad_color(w: int, h: int, x: int, y: int) -> Rgb565 {
    if y < h / 2 {
        if x < w / 2 { red() } else { green() }
    } else {
        if x < w / 2 { blue() } else { yellow() }
    }
}

/// A `w` by `h` grid showing the quadrant pattern.
pub open spec fn quad_canvas(w: nat, h: nat) -> Canvas {
    Canvas {
        width: w,
        height: h,
        pixels: Seq::new(w * h, |i: int| quad_color(w as int, h as int, i % (w as int), i / (w as int))),
    }
}

/// Fills the frame with four coloured quadrants.
pub fn quad(fb: &mut FrameBuffer)
    requires
        old(fb)@.wf(),
    ensures
        final(fb)@ == quad_canvas(old(fb)@.width, old(fb)@.height),
        final(fb)@.wf(),
        final(fb)@.width == old(fb)@.width,
        final(fb)@.height == old(fb)@.height,
        forall|x: int, y: int|
            final(fb)@.in_bounds(x, y) ==> #[trigger] final(fb)@.at(x, y) == quad_color(
                final(fb)@.width as int,
                final(fb)@.height as int,
                x,
                y,
            ),
{
    let ghost c0 = fb@;
    let w = fb.width();
    let h = fb.height();
    let w2 = w / 2;
    let h2 = h / 2;
    fill_rect(fb, 0, 0, w2, h2, Rgb565::red());
    let ghost c1 = fb@;
    fill_rect(fb, w2, 0, w - w2, h2, Rgb565::green());
    let ghost c2 = fb@;
    fill_rect(fb, 0, h2, w2, h - h2, Rgb565::blue());
    let ghost c3 = fb@;
    fill_rect(fb, w2, h2, w - w2, h - h2, Rgb565::yellow());
    proof {
        assert forall|x: int, y: int| fb@.in_bounds(x, y) implies #[trigger] fb@.at(x, y) == quad_color(
            w as int,
            h as int,
            x,
            y,
        ) by {
            canvas::lemma_paint_at(c0, primitives::rect_cover(0, 0, w2 as int, h2 as int), red(), x, y);
            canvas::lemma_paint_at(c1, primitives::rect_cover(w2 as int, 0, w as int, h2 as int), green(), x, y);
            canvas::lemma_paint_at(c2, primitives::rect_cover(0, h2 as int, w2 as int, h as int), blue(), x, y);
            canvas::lemma_paint_at(c3, primitives::rect_cover(w2 as int, h2 as int, w as int, h as int), yellow(), x, y);
        }
        let target = quad_canvas(w as nat, h as nat);
        assert forall|x: int, y: int| fb@.in_bounds(x, y) implies fb@.at(x, y) == target.at(x, y) by {
            canvas::lemma_index_in_grid(w as int, h as int, x, y);
        }
        canvas::lemma_canvas_ext(fb@, target);
    }
}

} // verus!

verus! {

/// Colour of bar `i` of the colour-bar pattern.
pub open spec fn bar_color(i: int) -> Rgb565 {
    if i == 0 { red() }
    else if i == 1 { green() }
    else if i == 2 { blue() }
    else if i == 3 { white() }
    else if i == 4 { yellow() }
    else if i == 5 { cyan() }
    else if i == 6 { magenta() }
    else { black() }
}

/// Height of each of the eight bars: an eighth of the frame height, at least one row.
pub open spec fn band_height(h: int) -> int {
    if h / 8 >= 1 { h / 8 } else { 1 }
}

proof fn lemma_band(y: int, i: int, bh: int)
    requires
        0 <= y,
        0 <= i,
        1 <= bh,
    ensures
        (i + 1) * bh == i * bh + bh,
        y < i * bh ==> y / bh < i,
        i * bh <= y < (i + 1) * bh ==> y / bh == i,
{
    assert((i + 1) * bh == i * bh + bh) by (nonlinear_arith);
    primitives::lemma_cell(0, bh, i, y);
    vstd::arithmetic::div_mod::lemma_fundamental_div_mod(y, bh);
    vstd::arithmetic::div_mod::lemma_mod_bound(y, bh);
    let q = y / bh;
    let r = y % bh;
    if y < i * bh {
        assert(q < i) by (nonlinear_arith)
            requires
                y == bh * q + r,
                0 <= r,
                y < i * bh,
                bh >= 1,
        ;
    }
}

fn bar(i: usize) -> (c: Rgb565)
    ensures
        c == bar_color(i as int),
{
    match i {
        0 => Rgb565::red(),
        1 => Rgb565::green(),
        2 => Rgb565::blue(),
        3 => Rgb565::white(),
        4 => Rgb565::yellow(),
        5 => Rgb565::cyan(),
        6 => Rgb565::magenta(),
        _ => Rgb565::black(),
    }
}

/// The frame after `color_bars`.
pub open spec fn color_bars_spec(c: Canvas) -> Canvas {
    let w = c.width as int;
    let bh = band_height(c.height as int);
    Canvas {
        width: c.width,
        height: c.height,
        pixels: Seq::new(
            c.pixels.len(),
            |i: int| if i / w < 8 * bh { bar_color((i / w) / bh) } else { c.pixels[i] },
        ),
    }
}

/// Eight horizontal colour bars, top to bottom red, green, blue, white, yellow, cyan,
/// magenta, black; rows below the eighth bar keep their colour.
pub fn color_bars(fb: &mut FrameBuffer)
    requires
        old(fb)@.wf(),
    ensures
        final(fb)@ == color_bars_spec(old(fb)@),
        final(fb)@.wf(),
        final(fb)@.width == old(fb)@.width,
        final(fb)@.height == old(fb)@.height,
        forall|x: int, y: int|
            final(fb)@.in_bounds(x, y) ==> #[trigger] final(fb)@.at(x, y) == (if y < 8 * band_height(
                final(fb)@.height as int,
            ) {
                bar_color(y / band_height(final(fb)@.height as int))
            } else {
                old(fb)@.at(x, y)
            }),
{
    let ghost c0 = fb@;
    let w = fb.width();
    let h = fb.height() as usize;
    let band_h: usize = if h / 8 >= 1 { h / 8 } else { 1 };
    let ghost bh = band_h as int;
    let mut i: usize = 0;
    while i < 8
        invariant
            c0.wf(),
            fb@.wf(),
            fb@.width == c0.width,
            fb@.height == c0.height,
            w == c0.width,
            h == c0.height,
            h <= 0xFFFF,
            bh == band_h,
            band_h == band_height(h as int),
            i <= 8,
            forall|x: int, y: int|
                #![trigger fb@.at(x, y)]
                fb@.in_bounds(x, y) ==> fb@.at(x, y) == (if y < i * bh {
                    bar_color(y / bh)
                } else {
                    c0.at(x, y)
                }),
        decreases 8 - i,
    {
        let ghost before = fb@;
        proof {
            assert(band_h <= 8192);
            assert(i * band_h <= 8 * 8192) by (nonlinear_arith)
                requires
                    i <= 8,
                    band_h <= 8192,
            ;
            assert((i + 1) * band_h <= 9 * 8192) by (nonlinear_arith)
                requires
                    i <= 8,
                    band_h <= 8192,
            ;
        }
        let y0 = i * band_h;
        let y1a = (i + 1) * band_h;
        let y1 = if y1a < h { y1a } else { h };
        if y0 < y1 {
            let color = bar(i);
            fill_rect(fb, 0, y0 as u16, w, (y1 - y0) as u16, color);
            proof {
                assert forall|x: int, y: int| #![trigger fb@.at(x, y)] fb@.in_bounds(x, y) implies fb@.at(x, y) == (if y < (i + 1) * bh {
                    bar_color(y / bh)
                } else {
                    c0.at(x, y)
                }) by {
                    canvas::lemma_paint_at(before, primitives::rect_cover(0, y0 as int, w as int, y1 as int), color, x, y);
                    lemma_band(y, i as int, bh);
                }
            }
        } else {
            proof {
                assert forall|x: int, y: int| #![trigger fb@.at(x, y)] fb@.in_bounds(x, y) implies fb@.at(x, y) == (if y < (i + 1) * bh {
                    bar_color(y / bh)
                } else {
                    c0.at(x, y)
                }) by {
                    lemma_band(y, i as int, bh);
                }
            }
        }
        i = i + 1;
    }
    proof {
        let target = color_bars_spec(c0);
        assert forall|x: int, y: int| fb@.in_bounds(x, y) implies fb@.at(x, y) == target.at(x, y) by {
            canvas::lemma_index_in_grid(w as int, h as int, x, y);
        }
        canvas::lemma_canvas_ext(fb@, target);
    }
}

} // verus!

verus! {

/// The frame after `debug_map`, call by call.
pub open spec fn debug_map_spec(c: Canvas) -> Canvas {
    let w = c.width as int;
    let h = c.height as int;
    let w2 = w / 2;
    let h2 = h / 2;
    let m = 24int;
    let c1 = primitives::fill_rect_spec(c, 0, 0, w2, h2, red());
    let c2 = primitives::fill_rect_spec(c1, w2, 0, w - w2, h2, green());
    let c3 = primitives::fill_rect_spec(c2, 0, h2, w2, h - h2, blue());
    let c4 = primitives::fill_rect_spec(c3, w2, h2, w - w2, h - h2, yellow());
    let c5 = primitives::fill_rect_spec(c4, framebuffer::sat_sub(w / 2, 1), 0, 3, h, white());
    let c6 = primitives::fill_rect_spec(c5, 0, framebuffer::sat_sub(h / 2, 1), w, 3, white());
    let c7 = primitives::fill_rect_spec(c6, 0, 0, m, m, white());
    let c8 = primitives::fill_rect_spec(c7, framebuffer::sat_sub(w, m), 0, m, m, cyan());
    let c9 = primitives::fill_rect_spec(c8, 0, framebuffer::sat_sub(h, m), m, m, magenta());
    let c10 = primitives::fill_rect_spec(c9, framebuffer::sat_sub(w, m), framebuffer::sat_sub(h, m), m, m, black());
    let c11 = primitives::outline_spec(c10, 0, 0, w, h, white(), 2);
    let c12 = primitives::text_spec(c11, 12, 30, "TL"@, black(), 3, 2);
    let c13 = primitives::text_spec(c12, framebuffer::sat_sub(w, 48), 30, "TR"@, black(), 3, 2);
    let c14 = primitives::text_spec(c13, 12, framebuffer::sat_sub(h, 50), "BL"@, white(), 3, 2);
    let c15 = primitives::text_spec(c14, framebuffer::sat_sub(w, 48), framebuffer::sat_sub(h, 50), "BR"@, black(), 3, 2);
    primitives::text_spec(c15, framebuffer::sat_sub(w2, 45), framebuffer::sat_sub(h2, 10), "C"@, black(), 3, 2)
}

/// Quadrants, centre axes, distinctly coloured corner blocks, a border and corner labels,
/// to reveal mirroring, folding and clipping on the panel.
pub fn debug_map(fb: &mut FrameBuffer)
    requires
        old(fb)@.wf(),
    ensures
        final(fb)@ == debug_map_spec(old(fb)@),
        final(fb)@.wf(),
{
    let w = fb.width();
    let h = fb.height();
    let w2 = w / 2;
    let h2 = h / 2;

    fill_rect(fb, 0, 0, w2, h2, Rgb565::red());
    fill_rect(fb, w2, 0, w - w2, h2, Rgb565::green());
    fill_rect(fb, 0, h2, w2, h - h2, Rgb565::blue());
    fill_rect(fb, w2, h2, w - w2, h - h2, Rgb565::yellow());

    let vline_x = w / 2;
    let hline_y = h / 2;
    fill_rect(fb, vline_x.saturating_sub(1), 0, 3, h, Rgb565::white());
    fill_rect(fb, 0, hline_y.saturating_sub(1), w, 3, Rgb565::white());

    let m = 24u16;
    fill_rect(fb, 0, 0, m, m, Rgb565::white());
    fill_rect(fb, w.saturating_sub(m), 0, m, m, Rgb565::cyan());
    fill_rect(fb, 0, h.saturating_sub(m), m, m, Rgb565::magenta());
    fill_rect(fb, w.saturating_sub(m), h.saturating_sub(m), m, m, Rgb565::black());

    draw_rect_outline(fb, 0, 0, w, h, Rgb565::white(), 2);

    proof {
        reveal_strlit("TL");
        reveal_strlit("TR");
        reveal_strlit("BL");
        reveal_strlit("BR");
        reveal_strlit("C");
        primitives::lemma_text_fits(12, 30, "TL"@, 3, 2);
        primitives::lemma_text_fits(framebuffer::sat_sub(w as int, 48), 30, "TR"@, 3, 2);
        primitives::lemma_text_fits(12, framebuffer::sat_sub(h as int, 50), "BL"@, 3, 2);
        primitives::lemma_text_fits(framebuffer::sat_sub(w as int, 48), framebuffer::sat_sub(h as int, 50), "BR"@, 3, 2);
        primitives::lemma_text_fits(framebuffer::sat_sub(w2 as int, 45), framebuffer::sat_sub(h2 as int, 10), "C"@, 3, 2);
    }
    draw_text_5x7(fb, 12, 30, "TL", Rgb565::black(), 3, 2);
    draw_text_5x7(fb, w.saturating_sub(48), 30, "TR", Rgb565::black(), 3, 2);
    draw_text_5x7(fb, 12, h.saturating_sub(50), "BL", Rgb565::white(), 3, 2);
    draw_text_5x7(fb, w.saturating_sub(48), h.saturating_sub(50), "BR", Rgb565::black(), 3, 2);
    draw_text_5x7(fb, w2.saturating_sub(45), h2.saturating_sub(10), "C", Rgb565::black(), 3, 2);
}

/// The frame after `status_page_demo`, call by call.
pub open spec fn status_page_spec(c: Canvas) -> Canvas {
    let w = c.width as int;
    let h = c.height as int;
    let c1 = primitives::fill_rect_spec(c, 0, 0, w, h, black());
    let c2 = primitives::outline_spec(c1, 8, 8, w - 16, h - 16, white(), 2);
    let c3 = primitives::text_spec(c2, 20, 20, "RPI LCD"@, white(), 3, 2);
    let c4 = primitives::text_spec(c3, 20, 60, "RUST DRIVER"@, cyan(), 2, 2);
    let c5 = primitives::text_spec(c4, 20, 90, "SPI OK"@, green(), 2, 2);
    let c6 = primitives::text_spec(c5, 20, 115, "MADCTL 48"@, yellow(), 2, 2);
    primitives::text_spec(c6, 20, 140, "RGB565"@, magenta(), 2, 2)
}

/// A black status page with a white border and five lines of text. The frame must be at
/// least 16 pixels each way for the border.
pub fn status_page_demo(fb: &mut FrameBuffer)
    requires
        old(fb)@.wf(),
        old(fb)@.width >= 16,
        old(fb)@.height >= 16,
    ensures
        final(fb)@ == status_page_spec(old(fb)@),
        final(fb)@.wf(),
{
    let w = fb.width();
    let h = fb.height();
    fill_rect(fb, 0, 0, w, h, Rgb565::black());
    draw_rect_outline(fb, 8, 8, w - 16, h - 16, Rgb565::white(), 2);
    proof {
        reveal_strlit("RPI LCD");
        reveal_strlit("RUST DRIVER");
        reveal_strlit("SPI OK");
        reveal_strlit("MADCTL 48");
        reveal_strlit("RGB565");
        primitives::lemma_text_fits(20, 20, "RPI LCD"@, 3, 2);
        primitives::lemma_text_fits(20, 60, "RUST DRIVER"@, 2, 2);
        primitives::lemma_text_fits(20, 90, "SPI OK"@, 2, 2);
        primitives::lemma_text_fits(20, 115, "MADCTL 48"@, 2, 2);
        primitives::lemma_text_fits(20, 140, "RGB565"@, 2, 2);
    }
    draw_text_5x7(fb, 20, 20, "RPI LCD", Rgb565::white(), 3, 2);
    draw_text_5x7(fb, 20, 60, "RUST DRIVER", Rgb565::cyan(), 2, 2);
    draw_text_5x7(fb, 20, 90, "SPI OK", Rgb565::green(), 2, 2);
    draw_text_5x7(fb, 20, 115, "MADCTL 48", Rgb565::yellow(), 2, 2);
    draw_text_5x7(fb, 20, 140, "RGB565", Rgb565::magenta(), 2, 2);
}

} // verus!

verus! {

/// The frame after `xo_center_demo`.
pub open spec fn xo_spec(c: Canvas) -> Canvas {
    let w = c.width as int;
    let h = c.height as int;
    let cx = w / 2;
    let cy = h / 2;
    let radius = framebuffer::min_int(h, w) / 4;
    let x0 = cx - radius + 12;
    let y0 = cy - radius + 12;
    let x1 = cx + radius - 12;
    let y1 = cy + radius - 12;
    let c1 = quad_canvas(c.width, c.height);
    let c2 = canvas::paint(c1, primitives::ring_cover(cx, cy, radius, 10), white());
    let c3 = canvas::paint(c2, primitives::line_cover(x0, y0, x1, y1, 12), black());
    canvas::paint(c3, primitives::line_cover(x0, y1, x1, y0, 12), black())
}

/// The quadrant pattern with a white ring and a black X in the centre.
pub fn xo_center_demo(fb: &mut FrameBuffer)
    requires
        old(fb)@.wf(),
    ensures
        final(fb)@ == xo_spec(old(fb)@),
        final(fb)@.wf(),
{
    quad(fb);
    let w = fb.width();
    let h = fb.height();
    let cx = (w / 2) as i32;
    let cy = (h / 2) as i32;
    let m = if h < w { h } else { w };
    let radius = (m as i32) / 4;
    proof {
        assert(radius * radius <= 16383 * 16383) by (nonlinear_arith)
            requires
                0 <= radius <= 16383,
        ;
        assert(2 * (radius + 1) * (radius + 1) <= 2 * 16384 * 16384) by (nonlinear_arith)
            requires
                0 <= radius <= 16383,
        ;
        assert(primitives::max0(radius - 10) * primitives::max0(radius - 10) <= 16383 * 16383) by (nonlinear_arith)
            requires
                0 <= primitives::max0(radius - 10) <= 16383,
        ;
    }
    draw_circle_ring(fb, cx, cy, radius, 10, Rgb565::white());
    let x0 = cx - radius + 12;
    let y0 = cy - radius + 12;
    let x1 = cx + radius - 12;
    let y1 = cy + radius - 12;
    draw_line(fb, x0, y0, x1, y1, Rgb565::black(), 12);
    draw_line(fb, x0, y1, x1, y0, Rgb565::black(), 12);
}

} // verus!

verus! {

proof fn lemma_pen_on_point(points: Seq<(int, int)>, k: int, hs: int)
    requires
        0 <= k < points.len(),
        hs >= 0,
        0 <= points[k].0 < 65536,
        0 <= points[k].1 < 65536,
    ensures
        primitives::pen_cover(points, hs)(points[k].0, points[k].1),
{
    let p = points[k];
    vstd::arithmetic::div_mod::lemma_small_mod(p.0 as nat, 65536);
    vstd::arithmetic::div_mod::lemma_small_mod(p.1 as nat, 65536);
    assert(primitives::pen_hit(p.0, p.1)(0, 0, p.0, p.1));
    assert(primitives::pen_square(p.0, p.1, hs)(p.0, p.1));
}

/// Law: the X of the xo pattern has both strokes: the two ends of the diagonal `(x0, y0)`,
/// `(x1, y1)` and the two ends of the anti-diagonal `(x0, y1)`, `(x1, y0)` are black, where
/// the X spans the square 12 pixels inside the ring (`x0 = cx - radius + 12`,
/// `x1 = cx + radius - 12`, and the same for `y`), on every frame at least 48 pixels each way.
pub proof fn lemma_xo_cross_ends(c: Canvas)
    requires
        c.wf(),
        48 <= c.width <= 65535,
        48 <= c.height <= 65535,
    ensures
        ({
            let w = c.width as int;
            let h = c.height as int;
            let radius = framebuffer::min_int(h, w) / 4;
            let x0 = w / 2 - radius + 12;
            let y0 = h / 2 - radius + 12;
            let x1 = w / 2 + radius - 12;
            let y1 = h / 2 + radius - 12;
            let r = xo_spec(c);
            &&& r.at(x0, y0) == black()
            &&& r.at(x1, y1) == black()
            &&& r.at(x0, y1) == black()
            &&& r.at(x1, y0) == black()
        }),
{
    let w = c.width as int;
    let h = c.height as int;
    let cx = w / 2;
    let cy = h / 2;
    let radius = framebuffer::min_int(h, w) / 4;
    let x0 = cx - radius + 12;
    let y0 = cy - radius + 12;
    let x1 = cx + radius - 12;
    let y1 = cy + radius - 12;
    let c1 = quad_canvas(c.width, c.height);
    let c2 = canvas::paint(c1, primitives::ring_cover(cx, cy, radius, 10), white());
    let l1 = primitives::line_cover(x0, y0, x1, y1, 12);
    let l2 = primitives::line_cover(x0, y1, x1, y0, 12);
    let c3 = canvas::paint(c2, l1, black());
    assert(xo_spec(c) == canvas::paint(c3, l2, black()));
    assert(0 <= x0 <= x1 < w && 0 <= y0 <= y1 < h);
    assert(c1.wf());
    assert(c2.wf());
    assert(c3.wf());
    let hs = primitives::pen_half(12);
    assert(hs == 6);
    // the diagonal
    let dxa = primitives::abs_int(x1 - x0);
    let dya = -primitives::abs_int(y1 - y0);
    let pa = primitives::line_path(x0, y0, dxa + dya, x1, y1, dxa, dya);
    primitives::lemma_line_path_ends(x0, y0, x1, y1);
    lemma_pen_on_point(pa, 0, hs);
    lemma_pen_on_point(pa, pa.len() - 1, hs);
    // the anti-diagonal
    let dxb = primitives::abs_int(x1 - x0);
    let dyb = -primitives::abs_int(y0 - y1);
    let pb = primitives::line_path(x0, y1, dxb + dyb, x1, y0, dxb, dyb);
    primitives::lemma_line_path_ends(x0, y1, x1, y0);
    lemma_pen_on_point(pb, 0, hs);
    lemma_pen_on_point(pb, pb.len() - 1, hs);
    assert(l1(x0, y0) && l1(x1, y1));
    assert(l2(x0, y1) && l2(x1, y0));
    canvas::lemma_paint_at(c2, l1, black(), x0, y0);
    canvas::lemma_paint_at(c2, l1, black(), x1, y1);
    canvas::lemma_paint_at(c3, l2, black(), x0, y0);
    canvas::lemma_paint_at(c3, l2, black(), x1, y1);
    canvas::lemma_paint_at(c3, l2, black(), x0, y1);
    canvas::lemma_paint_at(c3, l2, black(), x1, y0);
}

} // verus!
