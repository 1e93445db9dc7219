//! Rectangles, rounded rectangles, lines, rings and text drawn into a frame buffer.
use vstd::prelude::*;
use crate::canvas::{self, Canvas, Rgb565};
use crate::framebuffer::{self, FrameBuffer};

verus! {

/// Pixels with `x0 <= x < x1` and `y0 <= y < y1`.
pub open spec fn rect_cover(x0: int, y0: int, x1: int, y1: int) -> spec_fn(int, int) -> bool {
    |px: int, py: int| x0 <= px < x1 && y0 <= py < y1
}

/// The single pixel a signed position names once it is cut to 16 bits; nothing when a
/// coordinate is negative.
pub open spec fn point_i(x: int, y: int) -> spec_fn(int, int) -> bool {
    |px: int, py: int| x >= 0 && y >= 0 && px == x % 65536 && py == y % 65536
}

/// `v`, or zero when `v` is negative.
pub open spec fn max0(v: int) -> int {
    if v >= 0 {
        v
    } else {
        0
    }
}

/// The frame after `fill_rect`: the `w` by `h` rectangle at `(x, y)`, clipped to the frame,
/// takes `color`.
pub open spec fn fill_rect_spec(c: Canvas, x: int, y: int, w: int, h: int, color: Rgb565) -> Canvas {
    canvas::paint(c, rect_cover(x, y, x + w, y + h), color)
}

/// The frame after `fill_rect_i32`. A rectangle with no area changes nothing; otherwise the
/// left and top edges are raised to zero and cut to 16 bits, and the right and bottom edges
/// are clipped to the frame.
pub open spec fn fill_rect_i32_spec(c: Canvas, x: int, y: int, w: int, h: int, color: Rgb565) -> Canvas {
    if w <= 0 || h <= 0 {
        c
    } else {
        canvas::paint(
            c,
            rect_cover(
                max0(x) % 65536,
                max0(y) % 65536,
                framebuffer::min_int(max0(x + w), c.width as int),
                framebuffer::min_int(max0(y + h), c.height as int),
            ),
            color,
        )
    }
}

/// `fill_rect_i32` does not overflow on these arguments.
pub open spec fn fill_rect_i32_ok(x: int, y: int, w: int, h: int) -> bool {
    w <= 0 || h <= 0 || (x + w <= i32::MAX && y + h <= i32::MAX)
}

/// `a + b`, or the largest `u16` when the sum does not fit.
pub open spec fn sat_add16(a: int, b: int) -> int {
    framebuffer::min_int(a + b, 0xFFFF)
}

/// The frame after `draw_rect_outline`: four bands of width `t` along the edges.
pub open spec fn outline_spec(c: Canvas, x: int, y: int, w: int, h: int, color: Rgb565, t: int) -> Canvas {
    let c1 = fill_rect_spec(c, x, y, w, t, color);
    let c2 = fill_rect_spec(c1, x, sat_add16(y, framebuffer::sat_sub(h, t)), w, t, color);
    let c3 = fill_rect_spec(c2, x, y, t, h, color);
    fill_rect_spec(c3, sat_add16(x, framebuffer::sat_sub(w, t)), y, t, h, color)
}

/// The RGB565 colour nearest below an 8-bit-per-channel colour: the top 5, 6 and 5 bits.
pub open spec fn rgb565_spec(r: u8, g: u8, b: u8) -> Rgb565 {
    Rgb565(((r / 8) * 2048 + (g / 4) * 32 + b / 8) as u16)
}

/// A colour widened to 8 bits per channel, each channel's top bits repeated below it.
pub open spec fn rgb888_spec(c: Rgb565) -> (u8, u8, u8) {
    (
        (8 * framebuffer::red5(c) + framebuffer::red5(c) / 4) as u8,
        (4 * framebuffer::green6(c) + framebuffer::green6(c) / 16) as u8,
        (8 * framebuffer::blue5(c) + framebuffer::blue5(c) / 4) as u8,
    )
}

/// The frame after `fill_rows`: row `y + i` of the band gets `colors[i]`, first row first.
pub open spec fn fill_rows_spec(c: Canvas, x: int, y: int, w: int, colors: Seq<Rgb565>) -> Canvas
    decreases colors.len(),
{
    if colors.len() == 0 {
        c
    } else {
        let n = colors.len() - 1;
        fill_rect_i32_spec(fill_rows_spec(c, x, y, w, colors.take(n)), x, y + n, w, 1, colors[n])
    }
}

proof fn lemma_trunc16(v: i32)
    requires
        v >= 0,
    ensures
        (v as u16) as int == (v as int) % 65536,
{
    assert(v as u16 == (v % 65536) as u16) by (bit_vector);
}

/// Packs an 8-bit-per-channel colour into RGB565 by keeping the top bits of each channel.
pub fn rgb565(r: u8, g: u8, b: u8) -> (c: Rgb565)
    ensures
        c == rgb565_spec(r, g, b),
{
    let r5 = (r as u16 >> 3) & 0x1f;
    let g6 = (g as u16 >> 2) & 0x3f;
    let b5 = (b as u16 >> 3) & 0x1f;
    let v = (r5 << 11) | (g6 << 5) | b5;
    assert(v == (r / 8) * 2048 + (g / 4) * 32 + b / 8) by (bit_vector)
        requires
            r5 == (r as u16 >> 3) & 0x1f,
            g6 == (g as u16 >> 2) & 0x3f,
            b5 == (b as u16 >> 3) & 0x1f,
            v == (r5 << 11) | (g6 << 5) | b5,
    ;
    Rgb565(v)
}

/// Widens a colour to 8 bits per channel.
pub fn rgb565_to_rgb888(color: Rgb565) -> (t: (u8, u8, u8))
    ensures
        t == rgb888_spec(color),
{
    let v = color.0;
    let r5 = ((v >> 11) & 0x1f) as u8;
    let g6 = ((v >> 5) & 0x3f) as u8;
    let b5 = (v & 0x1f) as u8;
    assert(r5 == v / 2048 && g6 == (v / 32) % 64 && b5 == v % 32) by (bit_vector)
        requires
            r5 == ((v >> 11) & 0x1f) as u8,
            g6 == ((v >> 5) & 0x3f) as u8,
            b5 == (v & 0x1f) as u8,
    ;
    let a = (r5 << 3) | (r5 >> 2);
    let b = (g6 << 2) | (g6 >> 4);
    let d = (b5 << 3) | (b5 >> 2);
    assert(a == 8 * r5 + r5 / 4) by (bit_vector)
        requires
            r5 < 32,
            a == (r5 << 3) | (r5 >> 2),
    ;
    assert(b == 4 * g6 + g6 / 16) by (bit_vector)
        requires
            g6 < 64,
            b == (g6 << 2) | (g6 >> 4),
    ;
    assert(d == 8 * b5 + b5 / 4) by (bit_vector)
        requires
            b5 < 32,
            d == (b5 << 3) | (b5 >> 2),
    ;
    (a, b, d)
}

/// Sets the pixel at a signed position, cut to 16 bits; a negative coordinate draws nothing.
pub fn set_pixel_i32(fb: &mut FrameBuffer, x: i32, y: i32, color: Rgb565)
    requires
        old(fb)@.wf(),
    ensures
        final(fb)@ == canvas::paint(old(fb)@, point_i(x as int, y as int), color),
        final(fb)@.wf(),
{
    let ghost c0 = fb@;
    if x >= 0 && y >= 0 {
        proof {
            lemma_trunc16(x);
            lemma_trunc16(y);
        }
        fb.set_pixel(x as u16, y as u16, color);
        proof {
            canvas::lemma_paint_ext(
                c0,
                |px: int, py: int| px == (x as u16) && py == (y as u16),
                point_i(x as int, y as int),
                color,
            );
        }
    } else {
        proof {
            canvas::lemma_paint_nothing(c0, point_i(x as int, y as int), color);
        }
    }
}

/// Fills the `w` by `h` rectangle at `(x, y)`, clipped to the frame.
pub fn fill_rect(fb: &mut FrameBuffer, x: u16, y: u16, w: u16, h: u16, color: Rgb565)
    requires
        old(fb)@.wf(),
    ensures
        final(fb)@ == fill_rect_spec(old(fb)@, x as int, y as int, w as int, h as int, color),
        final(fb)@.wf(),
{
    let ghost c0 = fb@;
    let x_end = framebuffer::min_u16(x.saturating_add(w), fb.width());
    let y_end = framebuffer::min_u16(y.saturating_add(h), fb.height());
    proof {
        canvas::lemma_paint_nothing(c0, rect_cover(x as int, y as int, x_end as int, y as int), color);
    }
    let mut yy = y;
    while yy < y_end
        invariant
            c0.wf(),
            fb@.wf(),
            y <= yy,
            yy <= y_end || yy == y,
            fb@ == canvas::paint(c0, rect_cover(x as int, y as int, x_end as int, yy as int), color),
        decreases y_end - yy,
    {
        let mut xx = x;
        proof {
            canvas::lemma_paint_ext(
                c0,
                rect_cover(x as int, y as int, x_end as int, yy as int),
                |px: int, py: int|
                    rect_cover(x as int, y as int, x_end as int, yy as int)(px, py) || (py == yy
                        && x <= px < xx),
                color,
            );
        }
        while xx < x_end
            invariant
                c0.wf(),
                fb@.wf(),
                y <= yy < y_end,
                x <= xx,
                xx <= x_end || xx == x,
                fb@ == canvas::paint(
                    c0,
                    |px: int, py: int|
                        rect_cover(x as int, y as int, x_end as int, yy as int)(px, py) || (py == yy
                            && x <= px < xx),
                    color,
                ),
            decreases x_end - xx,
        {
            let ghost done = |px: int, py: int|
                rect_cover(x as int, y as int, x_end as int, yy as int)(px, py) || (py == yy && x
                    <= px < xx);
            fb.set_pixel(xx, yy, color);
            proof {
                canvas::lemma_paint_step(
                    c0,
                    done,
                    |px: int, py: int| px == xx && py == yy,
                    |px: int, py: int|
                        rect_cover(x as int, y as int, x_end as int, yy as int)(px, py) || (py == yy
                            && x <= px < xx + 1),
                    color,
                );
            }
            xx = xx + 1;
        }
        proof {
            canvas::lemma_paint_ext(
                c0,
                |px: int, py: int|
                    rect_cover(x as int, y as int, x_end as int, yy as int)(px, py) || (py == yy
                        && x <= px < xx),
                rect_cover(x as int, y as int, x_end as int, yy + 1),
                color,
            );
        }
        yy = yy + 1;
    }
    proof {
        canvas::lemma_paint_ext(
            c0,
            rect_cover(x as int, y as int, x_end as int, yy as int),
            rect_cover(x as int, y as int, x + w, y + h),
            color,
        );
    }
}

/// Fills a rectangle given by signed coordinates: a rectangle with no area draws nothing;
/// otherwise negative edges are raised to zero and the rectangle is clipped to the frame.
pub fn fill_rect_i32(fb: &mut FrameBuffer, x: i32, y: i32, w: i32, h: i32, color: Rgb565)
    requires
        old(fb)@.wf(),
        fill_rect_i32_ok(x as int, y as int, w as int, h as int),
    ensures
        final(fb)@ == fill_rect_i32_spec(old(fb)@, x as int, y as int, w as int, h as int, color),
        final(fb)@.wf(),
{
    let ghost c0 = fb@;
    if w <= 0 || h <= 0 {
        return;
    }
    let xm = if x > 0 { x } else { 0 };
    let ym = if y > 0 { y } else { 0 };
    proof {
        lemma_trunc16(xm);
        lemma_trunc16(ym);
    }
    let x0 = xm as u16;
    let y0 = ym as u16;
    let fw = fb.width() as i32;
    let fh = fb.height() as i32;
    let xe = x + w;
    let ye = y + h;
    let xe0 = if xe > 0 { xe } else { 0 };
    let ye0 = if ye > 0 { ye } else { 0 };
    let x1 = (if xe0 < fw { xe0 } else { fw }) as u16;
    let y1 = (if ye0 < fh { ye0 } else { fh }) as u16;
    let ghost pred = rect_cover(x0 as int, y0 as int, x1 as int, y1 as int);
    if x1 <= x0 || y1 <= y0 {
        proof {
            canvas::lemma_paint_nothing(c0, pred, color);
        }
        return;
    }
    fill_rect(fb, x0, y0, x1 - x0, y1 - y0, color);
}

/// Draws the outline of a rectangle as four bands of width `thickness`.
pub fn draw_rect_outline(
    fb: &mut FrameBuffer,
    x: u16,
    y: u16,
    w: u16,
    h: u16,
    color: Rgb565,
    thickness: u16,
)
    requires
        old(fb)@.wf(),
    ensures
        final(fb)@ == outline_spec(old(fb)@, x as int, y as int, w as int, h as int, color, thickness as int),
        final(fb)@.wf(),
{
    fill_rect(fb, x, y, w, thickness, color);
    fill_rect(fb, x, y.saturating_add(h.saturating_sub(thickness)), w, thickness, color);
    fill_rect(fb, x, y, thickness, h, color);
    fill_rect(fb, x.saturating_add(w.saturating_sub(thickness)), y, thickness, h, color);
}

/// Fills one row per colour: row `y + i` of the band `x .. x + w` gets `colors[i]`.
pub fn fill_rows(fb: &mut FrameBuffer, x: i32, y: i32, w: i32, colors: &Vec<Rgb565>)
    requires
        old(fb)@.wf(),
        colors@.len() <= i32::MAX,
        y + colors@.len() <= i32::MAX,
        w <= 0 || x + w <= i32::MAX,
    ensures
        final(fb)@ == fill_rows_spec(old(fb)@, x as int, y as int, w as int, colors@),
        final(fb)@.wf(),
{
    let ghost c0 = fb@;
    let n = colors.len();
    let mut i: usize = 0;
    while i < n
        invariant
            n == colors@.len(),
            n <= i32::MAX,
            y + n <= i32::MAX,
            w <= 0 || x + w <= i32::MAX,
            i <= n,
            fb@.wf(),
            fb@ == fill_rows_spec(c0, x as int, y as int, w as int, colors@.take(i as int)),
        decreases n - i,
    {
        let ghost prev = fb@;
        fill_rect_i32(fb, x, y + i as i32, w, 1, colors[i]);
        proof {
            let t = colors@.take(i + 1);
            assert(t.take(i as int) =~= colors@.take(i as int));
            assert(t[i as int] == colors@[i as int]);
            assert(t.len() - 1 == i);
            assert(fill_rows_spec(c0, x as int, y as int, w as int, t) == fill_rect_i32_spec(
                fill_rows_spec(c0, x as int, y as int, w as int, t.take(i as int)),
                x as int,
                y + i,
                w as int,
                1,
                t[i as int],
            ));
        }
        i = i + 1;
    }
    proof {
        assert(colors@.take(n as int) =~= colors@);
    }
}

} // verus!

verus! {

/// The upper-case form of an ASCII lower-case letter; any other character unchanged.
pub open spec fn ascii_upper(c: char) -> char {
    if 'a' <= c && c <= 'z' {
        ((c as u32) - 32) as char
    } else {
        c
    }
}

/// The ASCII upper-case form of `c`; any other character unchanged.
pub fn to_ascii_upper(c: char) -> (r: char)
    ensures
        r == ascii_upper(c),
{
    if 'a' <= c && c <= 'z' {
        let b = (c as u8) - 32;
        b as char
    } else {
        c
    }
}

/// Whether column `col` (0 is leftmost) of a glyph row is set: bit `4 - col` of the row.
pub open spec fn column_bit(bits: u8, col: u8) -> bool {
    bits & (1u8 << (4 - col)) != 0
}

/// `scale`, raised to at least 1.
pub open spec fn eff_scale(scale: int) -> int {
    if scale >= 1 {
        scale
    } else {
        1
    }
}

/// The pixels a glyph covers when drawn at `(x, y)` with cells `s` pixels square: pixel
/// `(px, py)` lies in cell `((px - x) / s, (py - y) / s)`, which is drawn when that cell's
/// bit is set.
pub open spec fn glyph_cover(x: int, y: int, rows: Seq<u8>, s: int) -> spec_fn(int, int) -> bool {
    |px: int, py: int|
        px >= x && py >= y && (px - x) / s < 5 && (py - y) / s < 7 && column_bit(
            rows[(py - y) / s],
            ((px - x) / s) as u8,
        )
}

/// The part of a glyph's cover in the cells before row `r0`, column `c0`, row by row.
pub open spec fn glyph_prefix(x: int, y: int, rows: Seq<u8>, s: int, r0: int, c0: int) -> spec_fn(int, int) -> bool {
    |px: int, py: int|
        glyph_cover(x, y, rows, s)(px, py) && ((py - y) / s < r0 || ((py - y) / s == r0 && (px - x)
            / s < c0))
}

/// The frame after `draw_char_5x7`.
pub open spec fn char_spec(c: Canvas, x: int, y: int, ch: char, fg: Rgb565, scale: int) -> Canvas {
    match crate::render::font5x7::glyph_rows(ascii_upper(ch)) {
        Some(rows) => canvas::paint(c, glyph_cover(x, y, rows, eff_scale(scale)), fg),
        None => c,
    }
}

/// No cell position of a drawn glyph overflows 16 bits.
pub open spec fn char_fits(x: int, y: int, ch: char, scale: int) -> bool {
    match crate::render::font5x7::glyph_rows(ascii_upper(ch)) {
        Some(rows) => forall|row: int, col: int|
            0 <= row < 7 && 0 <= col < 5 && #[trigger] column_bit(rows[row], col as u8) ==> x + col
                * eff_scale(scale) <= 0xFFFF && y + row * eff_scale(scale) <= 0xFFFF,
        None => true,
    }
}

/// Horizontal advance from one character to the next.
pub open spec fn text_step(scale: int, spacing: int) -> int {
    5 * eff_scale(scale) + spacing
}

/// The frame after `draw_text_5x7`: each character drawn in turn, the pen moving right by
/// `text_step` with saturation at the largest `u16`.
pub open spec fn text_spec(
    c: Canvas,
    x: int,
    y: int,
    chars: Seq<char>,
    fg: Rgb565,
    scale: int,
    spacing: int,
) -> Canvas
    decreases chars.len(),
{
    if chars.len() == 0 {
        c
    } else {
        text_spec(
            char_spec(c, x, y, chars[0], fg, scale),
            sat_add16(x, text_step(scale, spacing)),
            y,
            chars.drop_first(),
            fg,
            scale,
            spacing,
        )
    }
}

/// Every character of the text fits where `draw_text_5x7` draws it.
pub open spec fn text_fits(x: int, y: int, chars: Seq<char>, scale: int, spacing: int) -> bool
    decreases chars.len(),
{
    if chars.len() == 0 {
        true
    } else {
        char_fits(x, y, chars[0], scale) && text_fits(
            sat_add16(x, text_step(scale, spacing)),
            y,
            chars.drop_first(),
            scale,
            spacing,
        )
    }
}

/// Pixel `p` lies in cell `c` of a row of cells `s` wide starting at `x` exactly when it
/// is right of `x` and `(p - x) / s` is `c`.
pub proof fn lemma_cell(x: int, s: int, c: int, p: int)
    requires
        s > 0,
        0 <= c,
    ensures
        (x + c * s <= p < x + c * s + s) <==> (p >= x && (p - x) / s == c),
{
    if p >= x {
        vstd::arithmetic::div_mod::lemma_fundamental_div_mod(p - x, s);
        vstd::arithmetic::div_mod::lemma_mod_bound(p - x, s);
        let q = (p - x) / s;
        let r = (p - x) % s;
        if x + c * s <= p < x + c * s + s {
            assert(q == c) by (nonlinear_arith)
                requires
                    p - x == s * q + r,
                    0 <= r < s,
                    c * s <= p - x < c * s + s,
            ;
        }
        if q == c {
            assert(x + c * s <= p < x + c * s + s) by (nonlinear_arith)
                requires
                    p - x == s * q + r,
                    0 <= r < s,
                    q == c,
            ;
        }
    } else {
        assert(c * s >= 0) by (nonlinear_arith)
            requires
                c >= 0,
                s > 0,
        ;
    }
}

/// Draws one character of the 5x7 font with its top-left corner at `(x, y)`, each font dot
/// a `scale` by `scale` square (a scale of 0 counts as 1); lower-case letters are drawn as
/// upper case, and a character the font lacks draws nothing.
pub fn draw_char_5x7(fb: &mut FrameBuffer, x: u16, y: u16, ch: char, fg: Rgb565, scale: u16)
    requires
        old(fb)@.wf(),
        char_fits(x as int, y as int, ch, scale as int),
    ensures
        final(fb)@ == char_spec(old(fb)@, x as int, y as int, ch, fg, scale as int),
        final(fb)@.wf(),
{
    let ghost c0 = fb@;
    let up = to_ascii_upper(ch);
    if let Some(rows) = crate::render::font5x7::glyph5x7(up) {
        let s = if scale >= 1 { scale } else { 1 };
        let ghost g = rows@;
        let ghost cells = |r0: int, c0_: int| glyph_prefix(x as int, y as int, g, s as int, r0, c0_);
        proof {
            assert(crate::render::font5x7::glyph_rows(ascii_upper(ch)) is Some);
            assert(forall|r: int, c: int|
                0 <= r < 7 && 0 <= c < 5 && #[trigger] column_bit(g[r], c as u8) ==> x + c * s
                    <= 0xFFFF && y + r * s <= 0xFFFF);
            canvas::lemma_paint_nothing(c0, cells(0, 0), fg);
        }
        let mut row: usize = 0;
        while row < 7
            invariant
                c0.wf(),
                fb@.wf(),
                row <= 7,
                s == eff_scale(scale as int),
                g == rows@,
                g.len() == 7,
                g == crate::render::font5x7::glyph_rows(ascii_upper(ch))->0,
                forall|r: int, c: int|
                    0 <= r < 7 && 0 <= c < 5 && #[trigger] column_bit(g[r], c as u8) ==> x + c * s
                        <= 0xFFFF && y + r * s <= 0xFFFF,
                cells == (|r0: int, c0_: int| glyph_prefix(x as int, y as int, g, s as int, r0, c0_)),
                fb@ == canvas::paint(c0, cells(row as int, 0), fg),
            decreases 7 - row,
        {
            let bits = rows[row];
            let mut col: u16 = 0;
            while col < 5
                invariant
                    c0.wf(),
                    fb@.wf(),
                    row < 7,
                    col <= 5,
                    s == eff_scale(scale as int),
                    g == rows@,
                    g.len() == 7,
                    bits == g[row as int],
                    g == crate::render::font5x7::glyph_rows(ascii_upper(ch))->0,
                    forall|r: int, c: int|
                        0 <= r < 7 && 0 <= c < 5 && #[trigger] column_bit(g[r], c as u8) ==> x + c
                            * s <= 0xFFFF && y + r * s <= 0xFFFF,
                    cells == (|r0: int, c0_: int| glyph_prefix(x as int, y as int, g, s as int, r0, c0_)),
                    fb@ == canvas::paint(c0, cells(row as int, col as int), fg),
                decreases 5 - col,
            {
                let mask: u8 = 1u8 << (4 - col);
                if (bits & mask) != 0 {
                    proof {
                        assert(column_bit(g[row as int], (col as int) as u8));
                        assert(col * s <= 0xFFFF - x);
                        assert(row * s <= 0xFFFF - y);
                    }
                    let cx = x + col * s;
                    let cy = y + row as u16 * s;
                    fill_rect(fb, cx, cy, s, s, fg);
                    proof {
                        assert forall|px: int, py: int| c0.in_bounds(px, py) implies cells(
                            row as int,
                            col + 1,
                        )(px, py) == (cells(row as int, col as int)(px, py) || rect_cover(
                            cx as int,
                            cy as int,
                            cx + s,
                            cy + s,
                        )(px, py)) by {
                            lemma_cell(x as int, s as int, col as int, px);
                            lemma_cell(y as int, s as int, row as int, py);
                        }
                        canvas::lemma_paint_step(
                            c0,
                            cells(row as int, col as int),
                            rect_cover(cx as int, cy as int, cx + s, cy + s),
                            cells(row as int, col + 1),
                            fg,
                        );
                    }
                } else {
                    proof {
                        assert(!column_bit(g[row as int], col as u8));
                        canvas::lemma_paint_ext(c0, cells(row as int, col as int), cells(row as int, col + 1), fg);
                    }
                }
                col = col + 1;
            }
            proof {
                assert forall|px: int, py: int| c0.in_bounds(px, py) implies cells(row as int, 5)(px, py)
                    == cells(row + 1, 0)(px, py) by {}
                canvas::lemma_paint_ext(c0, cells(row as int, 5), cells(row + 1, 0), fg);
            }
            row = row + 1;
        }
        proof {
            canvas::lemma_paint_ext(c0, cells(7, 0), glyph_cover(x as int, y as int, g, s as int), fg);
        }
    }
}

} // verus!

verus! {

/// Draws `text` left to right from `(x, y)` in the 5x7 font, advancing
/// `5 * scale + spacing` pixels per character (saturating at the largest `u16`).
pub fn draw_text_5x7(
    fb: &mut FrameBuffer,
    x: u16,
    y: u16,
    text: &str,
    fg: Rgb565,
    scale: u16,
    spacing: u16,
)
    requires
        old(fb)@.wf(),
        text_step(scale as int, spacing as int) <= 0xFFFF,
        text_fits(x as int, y as int, text@, scale as int, spacing as int),
    ensures
        final(fb)@ == text_spec(old(fb)@, x as int, y as int, text@, fg, scale as int, spacing as int),
        final(fb)@.wf(),
{
    broadcast use vstd::string::group_string_axioms;

    let ghost c0 = fb@;
    let ghost full = text@;
    let s = if scale >= 1 { scale } else { 1 };
    let step = 5 * s + spacing;
    let mut cx = x;
    proof {
        assert(full.skip(0) =~= full);
    }
    for ch in it: text.chars()
        invariant
            fb@.wf(),
            full == text@,
            it.seq() == full,
            step == text_step(scale as int, spacing as int),
            text_spec(c0, x as int, y as int, full, fg, scale as int, spacing as int) == text_spec(
                fb@,
                cx as int,
                y as int,
                full.skip(it.index()),
                fg,
                scale as int,
                spacing as int,
            ),
            text_fits(cx as int, y as int, full.skip(it.index()), scale as int, spacing as int),
    {
        proof {
            let rest = full.skip(it.index());
            assert(rest[0] == ch);
            assert(rest.drop_first() =~= full.skip(it.index() + 1));
        }
        draw_char_5x7(fb, cx, y, ch, fg, scale);
        cx = cx.saturating_add(step);
    }
    proof {
        assert(full.skip(full.len() as int) =~= Seq::<char>::empty());
    }
}

} // verus!

verus! {

/// A text whose pen never saturates and whose glyphs stay below the 16-bit limit fits.
pub proof fn lemma_text_fits(x: int, y: int, chars: Seq<char>, scale: int, spacing: int)
    requires
        0 <= x,
        0 <= y,
        0 <= spacing,
        y + 6 * eff_scale(scale) <= 0xFFFF,
        x + chars.len() * text_step(scale, spacing) <= 0xFFFF,
    ensures
        text_fits(x, y, chars, scale, spacing),
    decreases chars.len(),
{
    let s = eff_scale(scale);
    let st = text_step(scale, spacing);
    if chars.len() > 0 {
        assert(chars.len() * st == st + (chars.len() - 1) * st) by (nonlinear_arith);
        assert((chars.len() - 1) * st >= 0) by (nonlinear_arith)
            requires
                chars.len() >= 1,
                st >= 0,
        ;
        match crate::render::font5x7::glyph_rows(ascii_upper(chars[0])) {
            Some(rows) => {
                assert forall|row: int, col: int|
                    0 <= row < 7 && 0 <= col < 5 && #[trigger] column_bit(rows[row], col as u8)
                        implies x + col * s <= 0xFFFF && y + row * s <= 0xFFFF by {
                    assert(col * s <= 4 * s) by (nonlinear_arith)
                        requires
                            col <= 4,
                            s >= 1,
                    ;
                    assert(row * s <= 6 * s) by (nonlinear_arith)
                        requires
                            row <= 6,
                            s >= 1,
                    ;
                }
            },
            None => {},
        }
        assert(sat_add16(x, st) == x + st);
        assert(chars.drop_first().len() == chars.len() - 1);
        lemma_text_fits(x + st, y, chars.drop_first(), scale, spacing);
    }
}

} // verus!

verus! {

/// The pixels hit by the cells `(a, b)` of the box `a0 <= a < a1`, `b0 <= b < b1`.
pub open spec fn scan_all(
    a0: int,
    a1: int,
    b0: int,
    b1: int,
    hit: spec_fn(int, int, int, int) -> bool,
) -> spec_fn(int, int) -> bool {
    |px: int, py: int| exists|a: int, b: int| a0 <= a < a1 && b0 <= b < b1 && #[trigger] hit(a, b, px, py)
}

/// The pixels hit by the cells of the box `a0 <= a < a1`, `b0 <= b`, that come before
/// `(ra, rb)` when the box is scanned row by row (`b` outer, `a` inner).
pub open spec fn scan_prefix(
    a0: int,
    a1: int,
    b0: int,
    ra: int,
    rb: int,
    hit: spec_fn(int, int, int, int) -> bool,
) -> spec_fn(int, int) -> bool {
    |px: int, py: int|
        exists|a: int, b: int|
            a0 <= a < a1 && b0 <= b && (b < rb || (b == rb && a < ra)) && #[trigger] hit(a, b, px, py)
}

/// Before the scan starts, nothing has been hit.
pub proof fn lemma_scan_start(a0: int, a1: int, b0: int, hit: spec_fn(int, int, int, int) -> bool)
    ensures
        forall|px: int, py: int| !#[trigger] scan_prefix(a0, a1, b0, a0, b0, hit)(px, py),
{
}

/// One more cell of the row scanned adds the pixels that cell hits.
pub proof fn lemma_scan_step(
    a0: int,
    a1: int,
    b0: int,
    ra: int,
    rb: int,
    hit: spec_fn(int, int, int, int) -> bool,
)
    requires
        a0 <= ra < a1,
        b0 <= rb,
    ensures
        forall|px: int, py: int|
            #[trigger] scan_prefix(a0, a1, b0, ra + 1, rb, hit)(px, py) == (scan_prefix(
                a0,
                a1,
                b0,
                ra,
                rb,
                hit,
            )(px, py) || hit(ra, rb, px, py)),
{
    assert forall|px: int, py: int|
        #[trigger] scan_prefix(a0, a1, b0, ra + 1, rb, hit)(px, py) == (scan_prefix(a0, a1, b0, ra, rb, hit)(
            px,
            py,
        ) || hit(ra, rb, px, py)) by {
        if scan_prefix(a0, a1, b0, ra + 1, rb, hit)(px, py) {
            let (a, b) = choose|a: int, b: int|
                a0 <= a < a1 && b0 <= b && (b < rb || (b == rb && a < ra + 1)) && #[trigger] hit(
                    a,
                    b,
                    px,
                    py,
                );
            if !(b == rb && a == ra) {
                assert(scan_prefix(a0, a1, b0, ra, rb, hit)(px, py));
            }
        }
        if hit(ra, rb, px, py) {
            assert(scan_prefix(a0, a1, b0, ra + 1, rb, hit)(px, py));
        }
    }
}

/// The end of a row is the start of the next.
pub proof fn lemma_scan_row(a0: int, a1: int, b0: int, rb: int, hit: spec_fn(int, int, int, int) -> bool)
    ensures
        forall|px: int, py: int|
            #[trigger] scan_prefix(a0, a1, b0, a1, rb, hit)(px, py) == scan_prefix(a0, a1, b0, a0, rb + 1, hit)(
                px,
                py,
            ),
{
}

/// Once every row is scanned, the pixels hit are those of the whole box.
pub proof fn lemma_scan_end(a0: int, a1: int, b0: int, b1: int, hit: spec_fn(int, int, int, int) -> bool)
    ensures
        forall|px: int, py: int|
            #[trigger] scan_prefix(a0, a1, b0, a0, b1, hit)(px, py) == scan_all(a0, a1, b0, b1, hit)(px, py),
{
    assert forall|px: int, py: int|
        #[trigger] scan_prefix(a0, a1, b0, a0, b1, hit)(px, py) == scan_all(a0, a1, b0, b1, hit)(px, py) by {
        if scan_prefix(a0, a1, b0, a0, b1, hit)(px, py) {
            let (a, b) = choose|a: int, b: int|
                a0 <= a < a1 && b0 <= b && (b < b1 || (b == b1 && a < a0)) && #[trigger] hit(a, b, px, py);
            assert(scan_all(a0, a1, b0, b1, hit)(px, py));
        }
        if scan_all(a0, a1, b0, b1, hit)(px, py) {
            let (a, b) = choose|a: int, b: int| a0 <= a < a1 && b0 <= b < b1 && #[trigger] hit(a, b, px, py);
            assert(scan_prefix(a0, a1, b0, a0, b1, hit)(px, py));
        }
    }
}

/// Which cells of its scan box `draw_circle_ring` draws: those whose squared distance from
/// the centre lies between the squared inner and outer radii; each such cell `(x, y)`
/// hits the pixel it names once cut to 16 bits, if neither coordinate is negative.
pub open spec fn ring_hit(cx: int, cy: int, r_out2: int, r_in2: int) -> spec_fn(int, int, int, int) -> bool {
    |x: int, y: int, px: int, py: int|
        {
            let d2 = (x - cx) * (x - cx) + (y - cy) * (y - cy);
            d2 <= r_out2 && d2 >= r_in2 && point_i(x, y)(px, py)
        }
}

/// The pixels `draw_circle_ring` draws: it scans the square of cells within `radius + 1`
/// of the centre.
pub open spec fn ring_cover(cx: int, cy: int, radius: int, thickness: int) -> spec_fn(int, int) -> bool {
    scan_all(
        cx - radius - 1,
        cx + radius + 2,
        cy - radius - 1,
        cy + radius + 2,
        ring_hit(cx, cy, radius * radius, max0(radius - thickness) * max0(radius - thickness)),
    )
}

/// `draw_circle_ring` does not overflow on these arguments.
pub open spec fn ring_ok(cx: int, cy: int, radius: int, thickness: int) -> bool {
    &&& radius * radius <= i32::MAX
    &&& i32::MIN <= radius - thickness <= i32::MAX
    &&& max0(radius - thickness) * max0(radius - thickness) <= i32::MAX
    &&& i32::MIN <= cx - radius - 1
    &&& cx + radius + 1 <= i32::MAX
    &&& i32::MIN <= cy - radius - 1
    &&& cy + radius + 1 <= i32::MAX
    &&& i32::MIN <= cx - radius <= i32::MAX
    &&& i32::MIN <= cx + radius <= i32::MAX
    &&& i32::MIN <= cy - radius <= i32::MAX
    &&& i32::MIN <= cy + radius <= i32::MAX
    &&& (radius < -1 || 2 * (radius + 1) * (radius + 1) <= i32::MAX)
}

proof fn lemma_sq_bound(d: int, r: int)
    requires
        -r <= d <= r,
    ensures
        d * d <= r * r,
        0 <= d * d,
{
    assert(d * d <= r * r) by (nonlinear_arith)
        requires
            -r <= d <= r,
    ;
    assert(0 <= d * d) by (nonlinear_arith);
}

/// Draws a ring centred on `(cx, cy)`: every pixel whose squared distance from the centre is
/// at most `radius * radius` and at least `(radius - thickness) * (radius - thickness)`
/// (the inner radius raised to zero).
pub fn draw_circle_ring(fb: &mut FrameBuffer, cx: i32, cy: i32, radius: i32, thickness: i32, color: Rgb565)
    requires
        old(fb)@.wf(),
        ring_ok(cx as int, cy as int, radius as int, thickness as int),
    ensures
        final(fb)@ == canvas::paint(old(fb)@, ring_cover(cx as int, cy as int, radius as int, thickness as int), color),
        final(fb)@.wf(),
{
    let ghost c0 = fb@;
    proof {
        assert(radius * radius >= 0) by (nonlinear_arith);
        assert(max0(radius - thickness) * max0(radius - thickness) >= 0) by (nonlinear_arith);
    }
    let r_out2 = radius * radius;
    let r_in = if radius - thickness > 0 { radius - thickness } else { 0 };
    let r_in2 = r_in * r_in;
    let ghost hit = ring_hit(cx as int, cy as int, r_out2 as int, r_in2 as int);
    let y_lo = cy - radius - 1;
    let y_hi = cy + radius + 1;
    let x_lo = cx - radius - 1;
    let x_hi = cx + radius + 1;
    let ghost a0 = x_lo as int;
    let ghost a1 = x_hi + 1;
    let ghost b0 = y_lo as int;
    proof {
        lemma_scan_start(a0, a1, b0, hit);
        canvas::lemma_paint_nothing(c0, scan_prefix(a0, a1, b0, a0, b0, hit), color);
    }
    let mut y: i64 = y_lo as i64;
    while y <= y_hi as i64
        invariant
            c0.wf(),
            fb@.wf(),
            b0 <= y,
            y <= y_hi + 1 || y == b0,
            ring_ok(cx as int, cy as int, radius as int, thickness as int),
            r_out2 == radius * radius,
            r_in2 == max0(radius - thickness) * max0(radius - thickness),
            hit == ring_hit(cx as int, cy as int, r_out2 as int, r_in2 as int),
            a0 == x_lo,
            a1 == x_hi + 1,
            b0 == y_lo,
            y_lo == cy - radius - 1,
            y_hi == cy + radius + 1,
            x_lo == cx - radius - 1,
            x_hi == cx + radius + 1,
            fb@ == canvas::paint(c0, scan_prefix(a0, a1, b0, a0, y as int, hit), color),
        decreases y_hi + 1 - y,
    {
        let mut x: i64 = x_lo as i64;
        while x <= x_hi as i64
            invariant
                c0.wf(),
                fb@.wf(),
                b0 <= y <= y_hi,
                a0 <= x,
                x <= x_hi + 1 || x == a0,
                ring_ok(cx as int, cy as int, radius as int, thickness as int),
                r_out2 == radius * radius,
                r_in2 == max0(radius - thickness) * max0(radius - thickness),
                hit == ring_hit(cx as int, cy as int, r_out2 as int, r_in2 as int),
                a0 == x_lo,
                a1 == x_hi + 1,
                b0 == y_lo,
                y_lo == cy - radius - 1,
                y_hi == cy + radius + 1,
                x_lo == cx - radius - 1,
                x_hi == cx + radius + 1,
                fb@ == canvas::paint(c0, scan_prefix(a0, a1, b0, x as int, y as int, hit), color),
            decreases x_hi + 1 - x,
        {
            let xi = x as i32;
            let yi = y as i32;
            proof {
                assert(radius >= -1);
                lemma_sq_bound(x - cx, radius + 1);
                lemma_sq_bound(y - cy, radius + 1);
                assert((radius + 1) * (radius + 1) + (radius + 1) * (radius + 1) == 2 * (radius + 1) * (radius + 1)) by (nonlinear_arith);
            }
            let dx = xi - cx;
            let dy = yi - cy;
            let d2 = dx * dx + dy * dy;
            let ghost pre = scan_prefix(a0, a1, b0, x as int, y as int, hit);
            proof {
                lemma_scan_step(a0, a1, b0, x as int, y as int, hit);
            }
            if d2 <= r_out2 && d2 >= r_in2 && xi >= 0 && yi >= 0 {
                set_pixel_i32(fb, xi, yi, color);
                proof {
                    canvas::lemma_paint_step(c0, pre, point_i(xi as int, yi as int), scan_prefix(a0, a1, b0, x + 1, y as int, hit), color);
                }
            } else {
                proof {
                    canvas::lemma_paint_ext(c0, pre, scan_prefix(a0, a1, b0, x + 1, y as int, hit), color);
                }
            }
            x = x + 1;
        }
        proof {
            if x_lo as int <= x_hi as int {
                lemma_scan_row(a0, a1, b0, y as int, hit);
                canvas::lemma_paint_ext(c0, scan_prefix(a0, a1, b0, x as int, y as int, hit), scan_prefix(a0, a1, b0, a0, y + 1, hit), color);
            }
        }
        y = y + 1;
    }
    proof {
        lemma_scan_end(a0, a1, b0, y as int, hit);
        canvas::lemma_paint_ext(
            c0,
            scan_prefix(a0, a1, b0, a0, y as int, hit),
            ring_cover(cx as int, cy as int, radius as int, thickness as int),
            color,
        );
    }
}

} // verus!

verus! {

/// The corner radius `draw_round_rect_filled` uses: `radius` raised to zero and limited to
/// half the width and half the height.
pub open spec fn round_radius(w: int, h: int, radius: int) -> int {
    framebuffer::min_int(framebuffer::min_int(max0(radius), w / 2), h / 2)
}

/// Corner cell `(ox, oy)` of a rounded rectangle lies within the corner arc; it then hits the
/// four mirrored pixels in the four corners.
pub open spec fn corner_hit(x: int, y: int, w: int, h: int, r: int) -> spec_fn(int, int, int, int) -> bool {
    |ox: int, oy: int, px: int, py: int|
        (r - ox) * (r - ox) + (r - oy) * (r - oy) <= r * r && (point_i(x + ox, y + oy)(px, py)
            || point_i(x + w - 1 - ox, y + oy)(px, py) || point_i(x + ox, y + h - 1 - oy)(px, py)
            || point_i(x + w - 1 - ox, y + h - 1 - oy)(px, py))
}

/// The frame after `draw_round_rect_filled`.
pub open spec fn round_rect_spec(
    c: Canvas,
    x: int,
    y: int,
    w: int,
    h: int,
    radius: int,
    color: Rgb565,
) -> Canvas {
    if w <= 0 || h <= 0 {
        c
    } else {
        let r = round_radius(w, h, radius);
        if r == 0 {
            fill_rect_i32_spec(c, x, y, w, h, color)
        } else {
            let c1 = fill_rect_i32_spec(c, x + r, y, w - 2 * r, h, color);
            let c2 = fill_rect_i32_spec(c1, x, y + r, r, h - 2 * r, color);
            let c3 = fill_rect_i32_spec(c2, x + w - r, y + r, r, h - 2 * r, color);
            canvas::paint(c3, scan_all(0, r, 0, r, corner_hit(x, y, w, h, r)), color)
        }
    }
}

/// `draw_round_rect_filled` does not overflow on these arguments.
pub open spec fn round_rect_ok(x: int, y: int, w: int, h: int, radius: int) -> bool {
    w <= 0 || h <= 0 || (x + w <= i32::MAX && y + h <= i32::MAX && 2 * round_radius(w, h, radius)
        * round_radius(w, h, radius) <= i32::MAX)
}

/// Fills a rectangle with rounded corners: a cross of three rectangles, then the four
/// corner arcs point by point.
pub fn draw_round_rect_filled(
    fb: &mut FrameBuffer,
    x: i32,
    y: i32,
    w: i32,
    h: i32,
    radius: i32,
    color: Rgb565,
)
    requires
        old(fb)@.wf(),
        round_rect_ok(x as int, y as int, w as int, h as int, radius as int),
    ensures
        final(fb)@ == round_rect_spec(old(fb)@, x as int, y as int, w as int, h as int, radius as int, color),
        final(fb)@.wf(),
{
    if w <= 0 || h <= 0 {
        return;
    }
    let r0 = if radius > 0 { radius } else { 0 };
    let r1 = if r0 < w / 2 { r0 } else { w / 2 };
    let r = if r1 < h / 2 { r1 } else { h / 2 };
    if r == 0 {
        fill_rect_i32(fb, x, y, w, h, color);
        return;
    }
    fill_rect_i32(fb, x + r, y, w - 2 * r, h, color);
    fill_rect_i32(fb, x, y + r, r, h - 2 * r, color);
    fill_rect_i32(fb, x + w - r, y + r, r, h - 2 * r, color);

    let ghost c3 = fb@;
    let ghost hit = corner_hit(x as int, y as int, w as int, h as int, r as int);
    proof {
        assert(r == round_radius(w as int, h as int, radius as int));
        assert(r * r >= 0) by (nonlinear_arith);
        assert(r * r <= 2 * r * r) by (nonlinear_arith);
        lemma_scan_start(0, r as int, 0, hit);
        canvas::lemma_paint_nothing(c3, scan_prefix(0, r as int, 0, 0, 0, hit), color);
    }
    let rr = r * r;
    let mut oy: i32 = 0;
    while oy < r
        invariant
            c3.wf(),
            fb@.wf(),
            0 <= oy <= r,
            0 < r,
            r <= w / 2,
            r <= h / 2,
            w > 0,
            h > 0,
            x + w <= i32::MAX,
            y + h <= i32::MAX,
            2 * r * r <= i32::MAX,
            rr == r * r,
            hit == corner_hit(x as int, y as int, w as int, h as int, r as int),
            fb@ == canvas::paint(c3, scan_prefix(0, r as int, 0, 0, oy as int, hit), color),
        decreases r - oy,
    {
        let mut ox: i32 = 0;
        while ox < r
            invariant
                c3.wf(),
                fb@.wf(),
                0 <= oy < r,
                0 <= ox <= r,
                r <= w / 2,
                r <= h / 2,
                w > 0,
                h > 0,
                x + w <= i32::MAX,
                y + h <= i32::MAX,
                2 * r * r <= i32::MAX,
                rr == r * r,
                hit == corner_hit(x as int, y as int, w as int, h as int, r as int),
                fb@ == canvas::paint(c3, scan_prefix(0, r as int, 0, ox as int, oy as int, hit), color),
            decreases r - ox,
        {
            let dx = r - ox;
            let dy = r - oy;
            proof {
                lemma_sq_bound(dx as int, r as int);
                lemma_sq_bound(dy as int, r as int);
                assert(r * r + r * r == 2 * r * r) by (nonlinear_arith);
                lemma_scan_step(0, r as int, 0, ox as int, oy as int, hit);
            }
            let ghost pre = scan_prefix(0, r as int, 0, ox as int, oy as int, hit);
            let ghost next = scan_prefix(0, r as int, 0, ox + 1, oy as int, hit);
            if dx * dx + dy * dy <= rr {
                let px_l = x + ox;
                let px_r = x + w - 1 - ox;
                let py_t = y + oy;
                let py_b = y + h - 1 - oy;
                let ghost q1 = point_i(px_l as int, py_t as int);
                let ghost q2 = point_i(px_r as int, py_t as int);
                let ghost q3 = point_i(px_l as int, py_b as int);
                let ghost q4 = point_i(px_r as int, py_b as int);
                let ghost p1 = |px: int, py: int| pre(px, py) || q1(px, py);
                let ghost p2 = |px: int, py: int| p1(px, py) || q2(px, py);
                let ghost p3 = |px: int, py: int| p2(px, py) || q3(px, py);
                set_pixel_i32(fb, px_l, py_t, color);
                set_pixel_i32(fb, px_r, py_t, color);
                set_pixel_i32(fb, px_l, py_b, color);
                set_pixel_i32(fb, px_r, py_b, color);
                proof {
                    canvas::lemma_paint_step(c3, pre, q1, p1, color);
                    canvas::lemma_paint_step(c3, p1, q2, p2, color);
                    canvas::lemma_paint_step(c3, p2, q3, p3, color);
                    canvas::lemma_paint_step(c3, p3, q4, next, color);
                }
            } else {
                proof {
                    canvas::lemma_paint_ext(c3, pre, next, color);
                }
            }
            ox = ox + 1;
        }
        proof {
            lemma_scan_row(0, r as int, 0, oy as int, hit);
            canvas::lemma_paint_ext(c3, scan_prefix(0, r as int, 0, r as int, oy as int, hit), scan_prefix(0, r as int, 0, 0, oy + 1, hit), color);
        }
        oy = oy + 1;
    }
    proof {
        lemma_scan_end(0, r as int, 0, r as int, hit);
        canvas::lemma_paint_ext(c3, scan_prefix(0, r as int, 0, 0, r as int, hit), scan_all(0, r as int, 0, r as int, hit), color);
    }
}

} // verus!

verus! {

/// Absolute value.
pub open spec fn abs_int(v: int) -> int {
    if v >= 0 {
        v
    } else {
        -v
    }
}

/// The larger of two integers.
pub open spec fn max_int(a: int, b: int) -> int {
    if a >= b {
        a
    } else {
        b
    }
}

/// One step from `a` towards `b`.
pub open spec fn step_toward(a: int, b: int) -> int {
    if a < b {
        1
    } else {
        -1
    }
}

/// The points Bresenham's algorithm visits from `(x, y)` with error term `err` towards
/// `(x1, y1)`, for the line's `dx = |x1 - x0|` and `dy = -|y1 - y0|`.
pub open spec fn line_path(x: int, y: int, err: int, x1: int, y1: int, dx: int, dy: int) -> Seq<(int, int)>
    decreases abs_int(x1 - x) + abs_int(y1 - y),
{
    let e2 = 2 * err;
    if x == x1 && y == y1 {
        seq![(x, y)]
    } else if e2 >= dy && x == x1 {
        seq![(x, y)]
    } else if e2 <= dx && y == y1 {
        seq![(x, y)]
    } else if !(e2 >= dy) && !(e2 <= dx) {
        seq![(x, y)]
    } else {
        let nx = if e2 >= dy { x + step_toward(x, x1) } else { x };
        let ny = if e2 <= dx { y + step_toward(y, y1) } else { y };
        let ne = err + (if e2 >= dy { dy } else { 0 }) + (if e2 <= dx { dx } else { 0 });
        seq![(x, y)] + line_path(nx, ny, ne, x1, y1, dx, dy)
    }
}

/// Which cell `(ox, oy)` of the pen square around `(cx, cy)` hits which pixel.
pub open spec fn pen_hit(cx: int, cy: int) -> spec_fn(int, int, int, int) -> bool {
    |ox: int, oy: int, px: int, py: int| point_i(cx + ox, cy + oy)(px, py)
}

/// The pixels of the square pen of half-size `hs` centred on `(cx, cy)`.
pub open spec fn pen_square(cx: int, cy: int, hs: int) -> spec_fn(int, int) -> bool {
    scan_all(-hs, hs + 1, -hs, hs + 1, pen_hit(cx, cy))
}

/// The pixels the pen covers at the given points.
pub open spec fn pen_cover(points: Seq<(int, int)>, hs: int) -> spec_fn(int, int) -> bool {
    |px: int, py: int|
        exists|k: int| 0 <= k < points.len() && #[trigger] pen_square(points[k].0, points[k].1, hs)(px, py)
}

/// Half the side of the pen `draw_line` uses for a thickness (a thickness of 0 counts as 1).
pub open spec fn pen_half(thickness: int) -> int {
    eff_scale(thickness) / 2
}

/// The pixels `draw_line` draws: the pen square at every point of the Bresenham path.
pub open spec fn line_cover(x0: int, y0: int, x1: int, y1: int, thickness: int) -> spec_fn(int, int) -> bool {
    let dx = abs_int(x1 - x0);
    let dy = -abs_int(y1 - y0);
    pen_cover(line_path(x0, y0, dx + dy, x1, y1, dx, dy), pen_half(thickness))
}

/// `draw_line` does not overflow on these arguments.
pub open spec fn line_ok(x0: int, y0: int, x1: int, y1: int, thickness: int) -> bool {
    let hs = pen_half(thickness);
    &&& 3 * abs_int(x1 - x0) + 2 <= i32::MAX
    &&& 3 * abs_int(y1 - y0) + 2 <= i32::MAX
    &&& i32::MIN <= framebuffer::min_int(x0, x1) - hs
    &&& max_int(x0, x1) + hs <= i32::MAX
    &&& i32::MIN <= framebuffer::min_int(y0, y1) - hs
    &&& max_int(y0, y1) + hs <= i32::MAX
}

proof fn lemma_pen_cover_push(points: Seq<(int, int)>, p: (int, int), hs: int)
    ensures
        forall|px: int, py: int|
            #[trigger] pen_cover(points.push(p), hs)(px, py) == (pen_cover(points, hs)(px, py) || pen_square(
                p.0,
                p.1,
                hs,
            )(px, py)),
{
    let q = points.push(p);
    assert forall|px: int, py: int|
        #[trigger] pen_cover(q, hs)(px, py) == (pen_cover(points, hs)(px, py) || pen_square(p.0, p.1, hs)(
            px,
            py,
        )) by {
        if pen_cover(q, hs)(px, py) {
            let k = choose|k: int| 0 <= k < q.len() && #[trigger] pen_square(q[k].0, q[k].1, hs)(px, py);
            if k < points.len() {
                assert(q[k] == points[k]);
                assert(pen_cover(points, hs)(px, py));
            }
        }
        if pen_cover(points, hs)(px, py) {
            let k = choose|k: int| 0 <= k < points.len() && #[trigger] pen_square(points[k].0, points[k].1, hs)(px, py);
            assert(q[k] == points[k]);
            assert(pen_square(q[k].0, q[k].1, hs)(px, py));
        }
        if pen_square(p.0, p.1, hs)(px, py) {
            assert(q[points.len() as int] == p);
            assert(pen_square(q[points.len() as int].0, q[points.len() as int].1, hs)(px, py));
        }
    }
}

/// Draws the square pen of half-size `hs` centred on `(cx, cy)`.
fn draw_pen(fb: &mut FrameBuffer, cx: i32, cy: i32, hs: i32, color: Rgb565)
    requires
        old(fb)@.wf(),
        0 <= hs <= 32767,
        i32::MIN <= cx - hs,
        cx + hs <= i32::MAX,
        i32::MIN <= cy - hs,
        cy + hs <= i32::MAX,
    ensures
        final(fb)@ == canvas::paint(old(fb)@, pen_square(cx as int, cy as int, hs as int), color),
        final(fb)@.wf(),
{
    let ghost c0 = fb@;
    let ghost hit = pen_hit(cx as int, cy as int);
    let ghost a0 = -hs;
    let ghost a1 = hs + 1;
    proof {
        lemma_scan_start(a0, a1, a0, hit);
        canvas::lemma_paint_nothing(c0, scan_prefix(a0, a1, a0, a0, a0, hit), color);
    }
    let mut oy: i32 = -hs;
    while oy <= hs
        invariant
            c0.wf(),
            fb@.wf(),
            0 <= hs <= 32767,
            -hs <= oy <= hs + 1,
            a0 == -hs,
            a1 == hs + 1,
            i32::MIN <= cx - hs,
            cx + hs <= i32::MAX,
            i32::MIN <= cy - hs,
            cy + hs <= i32::MAX,
            hit == pen_hit(cx as int, cy as int),
            fb@ == canvas::paint(c0, scan_prefix(a0, a1, a0, a0, oy as int, hit), color),
        decreases hs + 1 - oy,
    {
        let mut ox: i32 = -hs;
        while ox <= hs
            invariant
                c0.wf(),
                fb@.wf(),
                0 <= hs <= 32767,
                -hs <= oy <= hs,
                -hs <= ox <= hs + 1,
                a0 == -hs,
                a1 == hs + 1,
                i32::MIN <= cx - hs,
                cx + hs <= i32::MAX,
                i32::MIN <= cy - hs,
                cy + hs <= i32::MAX,
                hit == pen_hit(cx as int, cy as int),
                fb@ == canvas::paint(c0, scan_prefix(a0, a1, a0, ox as int, oy as int, hit), color),
            decreases hs + 1 - ox,
        {
            let xx = cx + ox;
            let yy = cy + oy;
            proof {
                lemma_scan_step(a0, a1, a0, ox as int, oy as int, hit);
            }
            set_pixel_i32(fb, xx, yy, color);
            proof {
                canvas::lemma_paint_step(
                    c0,
                    scan_prefix(a0, a1, a0, ox as int, oy as int, hit),
                    point_i(xx as int, yy as int),
                    scan_prefix(a0, a1, a0, ox + 1, oy as int, hit),
                    color,
                );
            }
            ox = ox + 1;
        }
        proof {
            lemma_scan_row(a0, a1, a0, oy as int, hit);
            canvas::lemma_paint_ext(c0, scan_prefix(a0, a1, a0, ox as int, oy as int, hit), scan_prefix(a0, a1, a0, a0, oy + 1, hit), color);
        }
        oy = oy + 1;
    }
    proof {
        lemma_scan_end(a0, a1, a0, a1, hit);
        canvas::lemma_paint_ext(c0, scan_prefix(a0, a1, a0, a0, oy as int, hit), pen_square(cx as int, cy as int, hs as int), color);
    }
}

} // verus!

verus! {

/// Draws a line from `(x0, y0)` to `(x1, y1)` with Bresenham's algorithm, stamping a square
/// pen of side `2 * (thickness / 2) + 1` (a thickness of 0 counts as 1) at every point.
pub fn draw_line(fb: &mut FrameBuffer, x0: i32, y0: i32, x1: i32, y1: i32, color: Rgb565, thickness: u16)
    requires
        old(fb)@.wf(),
        line_ok(x0 as int, y0 as int, x1 as int, y1 as int, thickness as int),
    ensures
        final(fb)@ == canvas::paint(
            old(fb)@,
            line_cover(x0 as int, y0 as int, x1 as int, y1 as int, thickness as int),
            color,
        ),
        final(fb)@.wf(),
{
    let ghost c0 = fb@;
    let ddx = x1 - x0;
    let dx = if ddx >= 0 { ddx } else { -ddx };
    let sx: i32 = if x0 < x1 { 1 } else { -1 };
    let ddy = y1 - y0;
    let dy = -(if ddy >= 0 { ddy } else { -ddy });
    let sy: i32 = if y0 < y1 { 1 } else { -1 };
    let mut err = dx + dy;
    let t: i32 = if thickness >= 1 { thickness as i32 } else { 1 };
    let hs = t / 2;
    let mut x = x0;
    let mut y = y0;
    let ghost path0 = line_path(x0 as int, y0 as int, (dx + dy) as int, x1 as int, y1 as int, dx as int, dy as int);
    let ghost mut done: Seq<(int, int)> = Seq::empty();
    proof {
        assert(done + line_path(x as int, y as int, err as int, x1 as int, y1 as int, dx as int, dy as int) =~= path0);
        assert forall|px: int, py: int| !#[trigger] pen_cover(done, hs as int)(px, py) by {}
        canvas::lemma_paint_nothing(c0, pen_cover(done, hs as int), color);
    }
    loop
        invariant_except_break
            c0.wf(),
            fb@.wf(),
            dx == abs_int(x1 - x0),
            dy == -abs_int(y1 - y0),
            3 * dx + 2 <= i32::MAX,
            3 * (-dy) + 2 <= i32::MAX,
            hs == pen_half(thickness as int),
            0 <= hs <= 32767,
            line_ok(x0 as int, y0 as int, x1 as int, y1 as int, thickness as int),
            (sx == 1 && x0 <= x <= x1 && x0 < x1) || (sx == -1 && x1 <= x <= x0),
            (sy == 1 && y0 <= y <= y1 && y0 < y1) || (sy == -1 && y1 <= y <= y0),
            3 * dy - 2 <= 2 * err <= 3 * dx + 2,
            path0 == done + line_path(x as int, y as int, err as int, x1 as int, y1 as int, dx as int, dy as int),
            fb@ == canvas::paint(c0, pen_cover(done, hs as int), color),
        ensures
            fb@.wf(),
            fb@ == canvas::paint(c0, pen_cover(path0, hs as int), color),
        decreases abs_int(x1 - x) + abs_int(y1 - y),
    {
        let ghost cur = line_path(x as int, y as int, err as int, x1 as int, y1 as int, dx as int, dy as int);
        let ghost p = (x as int, y as int);
        draw_pen(fb, x, y, hs, color);
        proof {
            lemma_pen_cover_push(done, p, hs as int);
            canvas::lemma_paint_step(c0, pen_cover(done, hs as int), pen_square(x as int, y as int, hs as int), pen_cover(done.push(p), hs as int), color);
            done = done.push(p);
        }
        if x == x1 && y == y1 {
            proof {
                assert(path0 =~= done);
            }
            break;
        }
        let e2 = 2 * err;
        let ghost ex = err;
        let ghost xx = x;
        let ghost yy = y;
        if e2 >= dy {
            if x == x1 {
                proof {
                    assert(path0 =~= done);
                }
                break;
            }
            err = err + dy;
            x = x + sx;
        }
        if e2 <= dx {
            if y == y1 {
                proof {
                    assert(cur == seq![p]);
                    assert(path0 =~= done);
                }
                break;
            }
            err = err + dx;
            y = y + sy;
        }
        proof {
            assert(cur == seq![p] + line_path(x as int, y as int, err as int, x1 as int, y1 as int, dx as int, dy as int));
            assert(path0 =~= done + line_path(x as int, y as int, err as int, x1 as int, y1 as int, dx as int, dy as int));
        }
    }
}

} // verus!

verus! {

/// A rounded rectangle with a moderate radius that ends inside the `i32` range can be drawn.
pub proof fn lemma_round_rect_ok(x: int, y: int, w: int, h: int, radius: int)
    requires
        0 <= radius <= 32767,
        w <= 0 || h <= 0 || (x + w <= i32::MAX && y + h <= i32::MAX),
    ensures
        round_rect_ok(x, y, w, h, radius),
{
    let r = round_radius(w, h, radius);
    if w > 0 && h > 0 {
        assert(0 <= r <= radius);
        assert(2 * r * r <= 2 * 32767 * 32767) by (nonlinear_arith)
            requires
                0 <= r <= 32767,
        ;
    }
}

} // verus!

verus! {

/// Law: widening a colour to 8 bits per channel and packing it again gives the colour back.
pub proof fn lemma_rgb_roundtrip(c: Rgb565)
    ensures
        rgb565_spec(rgb888_spec(c).0, rgb888_spec(c).1, rgb888_spec(c).2) == c,
{
    let v = c.0;
    let r = framebuffer::red5(c);
    let g = framebuffer::green6(c);
    let b = framebuffer::blue5(c);
    assert(v == (v / 2048) * 2048 + ((v / 32) % 64) * 32 + v % 32) by (bit_vector);
    assert(0 <= r < 32 && 0 <= g < 64 && 0 <= b < 32);
    let t = rgb888_spec(c);
    assert(t.0 / 8 == r);
    assert(t.1 / 4 == g);
    assert(t.2 / 8 == b);
}

} // verus!

verus! {

/// A painted grid keeps its size and stays well formed.
pub open spec fn same_frame(a: Canvas, b: Canvas) -> bool {
    &&& b.wf()
    &&& b.width == a.width
    &&& b.height == a.height
}

proof fn lemma_text_keeps_size(c: Canvas, x: int, y: int, chars: Seq<char>, fg: Rgb565, scale: int, spacing: int)
    requires
        c.wf(),
    ensures
        same_frame(c, text_spec(c, x, y, chars, fg, scale, spacing)),
    decreases chars.len(),
{
    if chars.len() > 0 {
        let c1 = char_spec(c, x, y, chars[0], fg, scale);
        lemma_text_keeps_size(c1, sat_add16(x, text_step(scale, spacing)), y, chars.drop_first(), fg, scale, spacing);
    }
}

proof fn lemma_fill_rows_keeps_size(c: Canvas, x: int, y: int, w: int, colors: Seq<Rgb565>)
    requires
        c.wf(),
    ensures
        same_frame(c, fill_rows_spec(c, x, y, w, colors)),
    decreases colors.len(),
{
    if colors.len() > 0 {
        lemma_fill_rows_keeps_size(c, x, y, w, colors.take(colors.len() - 1));
    }
}

/// Law: drawing never changes the size of the frame: painting, filled and outlined
/// rectangles, rounded rectangles, characters, text and row fills all give a well-formed grid
/// of the same width and height.
pub proof fn lemma_drawing_keeps_size(c: Canvas)
    requires
        c.wf(),
    ensures
        forall|pred: spec_fn(int, int) -> bool, color: Rgb565|
            same_frame(c, #[trigger] canvas::paint(c, pred, color)),
        forall|x: int, y: int, w: int, h: int, color: Rgb565|
            same_frame(c, #[trigger] fill_rect_spec(c, x, y, w, h, color)),
        forall|x: int, y: int, w: int, h: int, color: Rgb565|
            same_frame(c, #[trigger] fill_rect_i32_spec(c, x, y, w, h, color)),
        forall|x: int, y: int, w: int, h: int, color: Rgb565, t: int|
            same_frame(c, #[trigger] outline_spec(c, x, y, w, h, color, t)),
        forall|x: int, y: int, w: int, h: int, radius: int, color: Rgb565|
            same_frame(c, #[trigger] round_rect_spec(c, x, y, w, h, radius, color)),
        forall|x: int, y: int, ch: char, fg: Rgb565, scale: int|
            same_frame(c, #[trigger] char_spec(c, x, y, ch, fg, scale)),
        forall|x: int, y: int, chars: Seq<char>, fg: Rgb565, scale: int, spacing: int|
            same_frame(c, #[trigger] text_spec(c, x, y, chars, fg, scale, spacing)),
        forall|x: int, y: int, w: int, colors: Seq<Rgb565>|
            same_frame(c, #[trigger] fill_rows_spec(c, x, y, w, colors)),
{
    assert forall|x: int, y: int, chars: Seq<char>, fg: Rgb565, scale: int, spacing: int|
        same_frame(c, #[trigger] text_spec(c, x, y, chars, fg, scale, spacing)) by {
        lemma_text_keeps_size(c, x, y, chars, fg, scale, spacing);
    }
    assert forall|x: int, y: int, w: int, colors: Seq<Rgb565>|
        same_frame(c, #[trigger] fill_rows_spec(c, x, y, w, colors)) by {
        lemma_fill_rows_keeps_size(c, x, y, w, colors);
    }
}

/// Filling rows from the top of a frame the full width: two grids of one size agree, after
/// the fill, on every filled row and wherever they agreed before.
pub proof fn lemma_fill_rows_agree(c1: Canvas, c2: Canvas, colors: Seq<Rgb565>)
    requires
        c1.wf(),
        c2.wf(),
        c1.width == c2.width,
        c1.height == c2.height,
        c1.height <= 0xFFFF,
    ensures
        forall|x: int, y: int|
            c1.in_bounds(x, y) && (y < colors.len() || c1.at(x, y) == c2.at(x, y)) ==> #[trigger] fill_rows_spec(
                c1,
                0,
                0,
                c1.width as int,
                colors,
            ).at(x, y) == fill_rows_spec(c2, 0, 0, c1.width as int, colors).at(x, y),
    decreases colors.len(),
{
    let w = c1.width as int;
    if colors.len() > 0 {
        let n = colors.len() - 1;
        let pre = colors.take(n);
        lemma_fill_rows_agree(c1, c2, pre);
        lemma_fill_rows_keeps_size(c1, 0, 0, w, pre);
        lemma_fill_rows_keeps_size(c2, 0, 0, w, pre);
        let f1 = fill_rows_spec(c1, 0, 0, w, pre);
        let f2 = fill_rows_spec(c2, 0, 0, w, pre);
        assert(fill_rows_spec(c1, 0, 0, w, colors) == fill_rect_i32_spec(f1, 0, n, w, 1, colors[n]));
        assert(fill_rows_spec(c2, 0, 0, w, colors) == fill_rect_i32_spec(f2, 0, n, w, 1, colors[n]));
        assert forall|x: int, y: int|
            c1.in_bounds(x, y) && (y < colors.len() || c1.at(x, y) == c2.at(x, y)) implies #[trigger] fill_rows_spec(
                c1,
                0,
                0,
                w,
                colors,
            ).at(x, y) == fill_rows_spec(c2, 0, 0, w, colors).at(x, y) by {
            if w > 0 {
                let pred = rect_cover(
                    max0(0) % 65536,
                    max0(n) % 65536,
                    framebuffer::min_int(max0(0 + w), f1.width as int),
                    framebuffer::min_int(max0(n + 1), f1.height as int),
                );
                canvas::lemma_paint_at(f1, pred, colors[n], x, y);
                canvas::lemma_paint_at(f2, pred, colors[n], x, y);
                if y == n {
                    assert(n % 65536 == n);
                    assert(pred(x, y));
                }
            }
        }
    }
}

/// The pixels `fill_rect_i32` paints on a `cw` by `chh` grid.
pub open spec fn rect_i32_cover(cw: int, chh: int, x: int, y: int, w: int, h: int) -> spec_fn(int, int) -> bool {
    |px: int, py: int|
        w > 0 && h > 0 && rect_cover(
            max0(x) % 65536,
            max0(y) % 65536,
            framebuffer::min_int(max0(x + w), cw),
            framebuffer::min_int(max0(y + h), chh),
        )(px, py)
}

/// The pixels `draw_round_rect_filled` paints on a `cw` by `chh` grid: the cross of three
/// rectangles and the corner arcs.
pub open spec fn round_rect_cover(cw: int, chh: int, x: int, y: int, w: int, h: int, radius: int) -> spec_fn(
    int,
    int,
) -> bool {
    |px: int, py: int|
        w > 0 && h > 0 && {
            let r = round_radius(w, h, radius);
            if r == 0 {
                rect_i32_cover(cw, chh, x, y, w, h)(px, py)
            } else {
                rect_i32_cover(cw, chh, x + r, y, w - 2 * r, h)(px, py) || rect_i32_cover(
                    cw,
                    chh,
                    x,
                    y + r,
                    r,
                    h - 2 * r,
                )(px, py) || rect_i32_cover(cw, chh, x + w - r, y + r, r, h - 2 * r)(px, py) || scan_all(
                    0,
                    r,
                    0,
                    r,
                    corner_hit(x, y, w, h, r),
                )(px, py)
            }
        }
}

proof fn lemma_rect_i32_at(c: Canvas, x: int, y: int, w: int, h: int, color: Rgb565, px: int, py: int)
    requires
        c.wf(),
        c.in_bounds(px, py),
    ensures
        same_frame(c, fill_rect_i32_spec(c, x, y, w, h, color)),
        fill_rect_i32_spec(c, x, y, w, h, color).at(px, py) == (if rect_i32_cover(
            c.width as int,
            c.height as int,
            x,
            y,
            w,
            h,
        )(px, py) {
            color
        } else {
            c.at(px, py)
        }),
{
    if w > 0 && h > 0 {
        let pred = rect_cover(
            max0(x) % 65536,
            max0(y) % 65536,
            framebuffer::min_int(max0(x + w), c.width as int),
            framebuffer::min_int(max0(y + h), c.height as int),
        );
        canvas::lemma_paint_at(c, pred, color, px, py);
    }
}

/// A rounded rectangle paints exactly the pixels of its cover.
pub proof fn lemma_round_rect_at(
    c: Canvas,
    x: int,
    y: int,
    w: int,
    h: int,
    radius: int,
    color: Rgb565,
    px: int,
    py: int,
)
    requires
        c.wf(),
        c.in_bounds(px, py),
    ensures
        same_frame(c, round_rect_spec(c, x, y, w, h, radius, color)),
        round_rect_spec(c, x, y, w, h, radius, color).at(px, py) == (if round_rect_cover(
            c.width as int,
            c.height as int,
            x,
            y,
            w,
            h,
            radius,
        )(px, py) {
            color
        } else {
            c.at(px, py)
        }),
{
    lemma_drawing_keeps_size(c);
    if w > 0 && h > 0 {
        let r = round_radius(w, h, radius);
        if r == 0 {
            lemma_rect_i32_at(c, x, y, w, h, color, px, py);
        } else {
            let c1 = fill_rect_i32_spec(c, x + r, y, w - 2 * r, h, color);
            let c2 = fill_rect_i32_spec(c1, x, y + r, r, h - 2 * r, color);
            let c3 = fill_rect_i32_spec(c2, x + w - r, y + r, r, h - 2 * r, color);
            lemma_rect_i32_at(c, x + r, y, w - 2 * r, h, color, px, py);
            lemma_rect_i32_at(c1, x, y + r, r, h - 2 * r, color, px, py);
            lemma_rect_i32_at(c2, x + w - r, y + r, r, h - 2 * r, color, px, py);
            canvas::lemma_paint_at(c3, scan_all(0, r, 0, r, corner_hit(x, y, w, h, r)), color, px, py);
        }
    }
}

proof fn lemma_rect_i32_inside(cw: int, chh: int, x: int, y: int, w: int, h: int, px: int, py: int)
    requires
        px >= 0,
        py >= 0,
        x + w <= 65536,
        y + h <= 65536,
        rect_i32_cover(cw, chh, x, y, w, h)(px, py),
    ensures
        x <= px < x + w,
        y <= py < y + h,
{
    if x >= 0 {
        vstd::arithmetic::div_mod::lemma_small_mod(x as nat, 65536);
    }
    if y >= 0 {
        vstd::arithmetic::div_mod::lemma_small_mod(y as nat, 65536);
    }
}

/// Every pixel a rounded rectangle paints lies inside the rectangle, when the rectangle ends
/// within the 16-bit range.
pub proof fn lemma_round_rect_inside(cw: int, chh: int, x: int, y: int, w: int, h: int, radius: int, px: int, py: int)
    requires
        px >= 0,
        py >= 0,
        x + w <= 65536,
        y + h <= 65536,
        round_rect_cover(cw, chh, x, y, w, h, radius)(px, py),
    ensures
        x <= px < x + w,
        y <= py < y + h,
{
    let r = round_radius(w, h, radius);
    assert(0 <= r && 2 * r <= w && 2 * r <= h);
    if r == 0 {
        lemma_rect_i32_inside(cw, chh, x, y, w, h, px, py);
    } else if rect_i32_cover(cw, chh, x + r, y, w - 2 * r, h)(px, py) {
        lemma_rect_i32_inside(cw, chh, x + r, y, w - 2 * r, h, px, py);
    } else if rect_i32_cover(cw, chh, x, y + r, r, h - 2 * r)(px, py) {
        lemma_rect_i32_inside(cw, chh, x, y + r, r, h - 2 * r, px, py);
    } else if rect_i32_cover(cw, chh, x + w - r, y + r, r, h - 2 * r)(px, py) {
        lemma_rect_i32_inside(cw, chh, x + w - r, y + r, r, h - 2 * r, px, py);
    } else {
        let hit = corner_hit(x, y, w, h, r);
        assert(scan_all(0, r, 0, r, hit)(px, py));
        let (ox, oy) = choose|a: int, b: int| 0 <= a < r && 0 <= b < r && #[trigger] hit(a, b, px, py);
        assert(hit(ox, oy, px, py));
        assert(x <= x + ox < x + w);
        assert(x <= x + w - 1 - ox < x + w);
        assert(y <= y + oy < y + h);
        assert(y <= y + h - 1 - oy < y + h);
        if x + ox >= 0 {
            vstd::arithmetic::div_mod::lemma_small_mod((x + ox) as nat, 65536);
        }
        if x + w - 1 - ox >= 0 {
            vstd::arithmetic::div_mod::lemma_small_mod((x + w - 1 - ox) as nat, 65536);
        }
        if y + oy >= 0 {
            vstd::arithmetic::div_mod::lemma_small_mod((y + oy) as nat, 65536);
        }
        if y + h - 1 - oy >= 0 {
            vstd::arithmetic::div_mod::lemma_small_mod((y + h - 1 - oy) as nat, 65536);
        }
    }
}

proof fn lemma_path_shape(x: int, y: int, err: int, x1: int, y1: int, dx: int, dy: int)
    requires
        dx >= 0,
        dy <= 0,
        abs_int(x1 - x) <= dx,
        abs_int(y1 - y) <= -dy,
        err == dx + dy + abs_int(x1 - x) * (-dy) - abs_int(y1 - y) * dx,
        -max_int(dx, -dy) <= 2 * err - 2 * dx - 2 * dy <= max_int(dx, -dy),
    ensures
        line_path(x, y, err, x1, y1, dx, dy).len() == (if dx >= -dy {
            abs_int(x1 - x)
        } else {
            abs_int(y1 - y)
        }) + 1,
        line_path(x, y, err, x1, y1, dx, dy)[0] == (x, y),
        line_path(x, y, err, x1, y1, dx, dy).last() == (x1, y1),
    decreases abs_int(x1 - x) + abs_int(y1 - y),
{
    let rx = abs_int(x1 - x);
    let ry = abs_int(y1 - y);
    let e2 = 2 * err;
    let big = -dy;
    // With the column done, no further column step is taken while rows remain, and the
    // other way round.
    if rx == 0 && ry > 0 {
        assert(!(e2 >= dy)) by (nonlinear_arith)
            requires
                err == dx + dy + rx * big - ry * dx,
                rx == 0,
                ry >= 1,
                ry <= big,
                big == -dy,
                dx >= 0,
                e2 == 2 * err,
        ;
    }
    if ry == 0 && rx > 0 {
        assert(!(e2 <= dx)) by (nonlinear_arith)
            requires
                err == dx + dy + rx * big - ry * dx,
                ry == 0,
                rx >= 1,
                rx <= dx,
                big == -dy,
                big >= 0,
                e2 == 2 * err,
        ;
    }
    if dx >= big {
        assert(e2 >= dy);
    }
    if dx < big {
        assert(e2 <= dx);
    }
    if x == x1 && y == y1 {
    } else {
        let nx = if e2 >= dy { x + step_toward(x, x1) } else { x };
        let ny = if e2 <= dx { y + step_toward(y, y1) } else { y };
        let ne = err + (if e2 >= dy { dy } else { 0 }) + (if e2 <= dx { dx } else { 0 });
        let nrx = abs_int(x1 - nx);
        let nry = abs_int(y1 - ny);
        if e2 >= dy {
            assert(rx > 0);
            assert(nrx == rx - 1);
        } else {
            assert(nrx == rx);
        }
        if e2 <= dx {
            assert(ry > 0);
            assert(nry == ry - 1);
        } else {
            assert(nry == ry);
        }
        assert(nrx * big == rx * big - (if e2 >= dy { big } else { 0 })) by (nonlinear_arith)
            requires
                nrx == rx - (if e2 >= dy { 1int } else { 0 }),
        ;
        assert(nry * dx == ry * dx - (if e2 <= dx { dx } else { 0 })) by (nonlinear_arith)
            requires
                nry == ry - (if e2 <= dx { 1int } else { 0 }),
        ;
        lemma_path_shape(nx, ny, ne, x1, y1, dx, dy);
        let rest = line_path(nx, ny, ne, x1, y1, dx, dy);
        assert(line_path(x, y, err, x1, y1, dx, dy) == seq![(x, y)] + rest);
    }
}

/// Law: the Bresenham path of a line has one point for each step along its longer axis and
/// one more, `max(|x1 - x0|, |y1 - y0|) + 1` in all, starts at `(x0, y0)` and ends at
/// `(x1, y1)`.
pub proof fn lemma_line_path_ends(x0: int, y0: int, x1: int, y1: int)
    ensures
        ({
            let dx = abs_int(x1 - x0);
            let dy = -abs_int(y1 - y0);
            let p = line_path(x0, y0, dx + dy, x1, y1, dx, dy);
            &&& p.len() == max_int(abs_int(x1 - x0), abs_int(y1 - y0)) + 1
            &&& p[0] == (x0, y0)
            &&& p.last() == (x1, y1)
        }),
{
    let dx = abs_int(x1 - x0);
    let dy = -abs_int(y1 - y0);
    assert(dx * (-dy) - (-dy) * dx == 0) by (nonlinear_arith);
    lemma_path_shape(x0, y0, dx + dy, x1, y1, dx, dy);
}

/// Whether `draw_char_5x7` can draw `ch` at `(x, y)` (see `char_fits`).
pub fn char_fits_at(x: u16, y: u16, ch: char, scale: u16) -> (r: bool)
    ensures
        r == char_fits(x as int, y as int, ch, scale as int),
{
    let up = to_ascii_upper(ch);
    match crate::render::font5x7::glyph5x7(up) {
        None => true,
        Some(rows) => {
            let s: u32 = if scale >= 1 { scale as u32 } else { 1 };
            let ghost g = rows@;
            let mut row: usize = 0;
            while row < 7
                invariant
                    row <= 7,
                    s == eff_scale(scale as int),
                    g == rows@,
                    g.len() == 7,
                    g == crate::render::font5x7::glyph_rows(ascii_upper(ch))->0,
                    crate::render::font5x7::glyph_rows(ascii_upper(ch)) is Some,
                    forall|r: int, c: int|
                        0 <= r < row && 0 <= c < 5 && #[trigger] column_bit(g[r], c as u8) ==> x + c * s
                            <= 0xFFFF && y + r * s <= 0xFFFF,
                decreases 7 - row,
            {
                let bits = rows[row];
                let mut col: u8 = 0;
                while col < 5
                    invariant
                        row < 7,
                        col <= 5,
                        s == eff_scale(scale as int),
                        1 <= s <= 0xFFFF,
                        g == rows@,
                        g.len() == 7,
                        bits == g[row as int],
                        g == crate::render::font5x7::glyph_rows(ascii_upper(ch))->0,
                        crate::render::font5x7::glyph_rows(ascii_upper(ch)) is Some,
                        forall|r: int, c: int|
                            (0 <= r < row && 0 <= c < 5 || r == row && 0 <= c < col) && #[trigger] column_bit(
                                g[r],
                                c as u8,
                            ) ==> x + c * s <= 0xFFFF && y + r * s <= 0xFFFF,
                    decreases 5 - col,
                {
                    let mask: u8 = 1u8 << (4 - col);
                    if (bits & mask) != 0 {
                        proof {
                            assert((col as u32) * s <= 4 * 0xFFFF) by (nonlinear_arith)
                                requires
                                    col < 5,
                                    s <= 0xFFFF,
                            ;
                            assert((row as u32) * s <= 6 * 0xFFFF) by (nonlinear_arith)
                                requires
                                    row < 7,
                                    s <= 0xFFFF,
                            ;
                        }
                        let cx: u32 = x as u32 + (col as u32) * s;
                        let cy: u32 = y as u32 + (row as u32) * s;
                        if cx > 0xFFFF || cy > 0xFFFF {
                            proof {
                                assert(column_bit(g[row as int], ((col as int) as u8)));
                                assert(!(x + col * s <= 0xFFFF && y + row * s <= 0xFFFF));
                                let rr = crate::render::font5x7::glyph_rows(ascii_upper(ch));
                                assert(rr is Some);
                                assert(!char_fits(x as int, y as int, ch, scale as int));
                            }
                            return false;
                        }
                    }
                    col = col + 1;
                }
                row = row + 1;
            }
            true
        },
    }
}

/// Whether `draw_text_5x7` can draw `text` at `(x, y)` (see `text_fits`).
pub fn text_fits_at(x: u16, y: u16, text: &str, scale: u16, spacing: u16) -> (r: bool)
    ensures
        r == text_fits(x as int, y as int, text@, scale as int, spacing as int),
{
    let v = crate::text::str_chars(text);
    let s: u32 = if scale >= 1 { scale as u32 } else { 1 };
    let step: u32 = 5 * s + spacing as u32;
    let mut cx: u16 = x;
    let mut i: usize = 0;
    proof {
        assert(v@.skip(0) =~= v@);
    }
    while i < v.len()
        invariant
            i <= v@.len(),
            v@ == text@,
            step == text_step(scale as int, spacing as int),
            text_fits(x as int, y as int, text@, scale as int, spacing as int) == text_fits(
                cx as int,
                y as int,
                v@.skip(i as int),
                scale as int,
                spacing as int,
            ),
        decreases v@.len() - i,
    {
        let rest = Ghost(v@.skip(i as int));
        proof {
            assert(rest@[0] == v@[i as int]);
            assert(rest@.drop_first() =~= v@.skip(i + 1));
        }
        if !char_fits_at(cx, y, v[i], scale) {
            return false;
        }
        let nx: u32 = cx as u32 + step;
        cx = if nx > 0xFFFF { 0xFFFF } else { nx as u16 };
        i = i + 1;
    }
    true
}

/// Whether `(px, py)` lies on the ring of `radius` and `thickness` around `(cx, cy)`: its
/// squared distance from the centre is at most the radius squared and at least the inner
/// radius (the radius less the thickness, but not below zero) squared.
pub open spec fn in_annulus(cx: int, cy: int, radius: int, thickness: int, px: int, py: int) -> bool {
    let d2 = (px - cx) * (px - cx) + (py - cy) * (py - cy);
    let inner = if radius - thickness > 0 {
        radius - thickness
    } else {
        0
    };
    inner * inner <= d2 && d2 <= radius * radius
}

proof fn lemma_sq_within(d: int, e: int, r: int)
    requires
        r >= 0,
        d * d + e * e <= r * r,
    ensures
        -r <= d <= r,
        -r <= e <= r,
{
    assert(e * e >= 0) by (nonlinear_arith);
    assert(d * d >= 0) by (nonlinear_arith);
    if d > r {
        assert(d * d > r * r) by (nonlinear_arith)
            requires
                d > r,
                r >= 0,
        ;
    }
    if d < -r {
        assert(d * d > r * r) by (nonlinear_arith)
            requires
                d < -r,
                r >= 0,
        ;
    }
    if e > r {
        assert(e * e > r * r) by (nonlinear_arith)
            requires
                e > r,
                r >= 0,
        ;
    }
    if e < -r {
        assert(e * e > r * r) by (nonlinear_arith)
            requires
                e < -r,
                r >= 0,
        ;
    }
}

/// Law: `draw_circle_ring` paints exactly the frame pixels on the ring (`in_annulus`), on
/// both sides of the centre, and leaves every other pixel as it was, when the ring ends
/// within the 16-bit range.
pub proof fn lemma_ring_pixels(
    c: Canvas,
    cx: int,
    cy: int,
    radius: int,
    thickness: int,
    color: Rgb565,
    px: int,
    py: int,
)
    requires
        c.wf(),
        c.in_bounds(px, py),
        radius >= 0,
        cx + radius + 1 < 65536,
        cy + radius + 1 < 65536,
    ensures
        canvas::paint(c, ring_cover(cx, cy, radius, thickness), color).at(px, py) == (if in_annulus(
            cx,
            cy,
            radius,
            thickness,
            px,
            py,
        ) {
            color
        } else {
            c.at(px, py)
        }),
{
    let cover = ring_cover(cx, cy, radius, thickness);
    canvas::lemma_paint_at(c, cover, color, px, py);
    let r_out2 = radius * radius;
    let r_in2 = max0(radius - thickness) * max0(radius - thickness);
    let hit = ring_hit(cx, cy, r_out2, r_in2);
    if cover(px, py) {
        let (a, b) = choose|a: int, b: int|
            cx - radius - 1 <= a < cx + radius + 2 && cy - radius - 1 <= b < cy + radius + 2 && #[trigger] hit(
                a,
                b,
                px,
                py,
            );
        vstd::arithmetic::div_mod::lemma_small_mod(a as nat, 65536);
        vstd::arithmetic::div_mod::lemma_small_mod(b as nat, 65536);
        assert(a == px && b == py);
    }
    if in_annulus(cx, cy, radius, thickness, px, py) {
        lemma_sq_within(px - cx, py - cy, radius);
        vstd::arithmetic::div_mod::lemma_small_mod(px as nat, 65536);
        vstd::arithmetic::div_mod::lemma_small_mod(py as nat, 65536);
        assert(hit(px, py, px, py));
        assert(cover(px, py));
    }
}

proof fn lemma_rect_i32_iff(cw: int, chh: int, x: int, y: int, w: int, h: int, px: int, py: int)
    requires
        0 <= px < cw,
        0 <= py < chh,
        x + w <= 65536,
        y + h <= 65536,
    ensures
        rect_i32_cover(cw, chh, x, y, w, h)(px, py) == (w > 0 && h > 0 && x <= px < x + w && y <= py < y + h),
{
    if 0 <= x < 65536 {
        vstd::arithmetic::div_mod::lemma_small_mod(x as nat, 65536);
    }
    if 0 <= y < 65536 {
        vstd::arithmetic::div_mod::lemma_small_mod(y as nat, 65536);
    }
}

/// Whether `(px, py)` lies in the rounded rectangle at `(x, y)`, `w` by `h`, with corner
/// radius `radius` (not below zero, at most half the width and half the height): inside the
/// rectangle, and either at least the radius away from the nearer side or from the nearer
/// top or bottom, or within the corner's circle.
pub open spec fn in_round_rect(x: int, y: int, w: int, h: int, radius: int, px: int, py: int) -> bool {
    let r0 = if radius > 0 {
        radius
    } else {
        0
    };
    let r = framebuffer::min_int(framebuffer::min_int(r0, w / 2), h / 2);
    let ox = framebuffer::min_int(px - x, x + w - 1 - px);
    let oy = framebuffer::min_int(py - y, y + h - 1 - py);
    &&& x <= px < x + w
    &&& y <= py < y + h
    &&& (ox >= r || oy >= r || (r - ox) * (r - ox) + (r - oy) * (r - oy) <= r * r)
}

/// The pixels a rounded rectangle covers on a grid are those of `in_round_rect`, when the
/// rectangle ends within the 16-bit range.
pub proof fn lemma_round_rect_cover_iff(cw: int, chh: int, x: int, y: int, w: int, h: int, radius: int, px: int, py: int)
    requires
        0 <= px < cw,
        0 <= py < chh,
        x + w <= 65536,
        y + h <= 65536,
    ensures
        round_rect_cover(cw, chh, x, y, w, h, radius)(px, py) == in_round_rect(x, y, w, h, radius, px, py),
{
    let cover = round_rect_cover(cw, chh, x, y, w, h, radius)(px, py);
    let inside = in_round_rect(x, y, w, h, radius, px, py);
    if w > 0 && h > 0 {
        let r = round_radius(w, h, radius);
        let ox = framebuffer::min_int(px - x, x + w - 1 - px);
        let oy = framebuffer::min_int(py - y, y + h - 1 - py);
        assert(0 <= r && 2 * r <= w && 2 * r <= h);
        if r == 0 {
            lemma_rect_i32_iff(cw, chh, x, y, w, h, px, py);
        } else {
            lemma_rect_i32_iff(cw, chh, x + r, y, w - 2 * r, h, px, py);
            lemma_rect_i32_iff(cw, chh, x, y + r, r, h - 2 * r, px, py);
            lemma_rect_i32_iff(cw, chh, x + w - r, y + r, r, h - 2 * r, px, py);
            let hit = corner_hit(x, y, w, h, r);
            let corners = scan_all(0, r, 0, r, hit)(px, py);
            if corners {
                let (a, b) = choose|a: int, b: int| 0 <= a < r && 0 <= b < r && #[trigger] hit(a, b, px, py);
                assert(hit(a, b, px, py));
                if x + a >= 0 {
                    vstd::arithmetic::div_mod::lemma_small_mod((x + a) as nat, 65536);
                }
                if x + w - 1 - a >= 0 {
                    vstd::arithmetic::div_mod::lemma_small_mod((x + w - 1 - a) as nat, 65536);
                }
                if y + b >= 0 {
                    vstd::arithmetic::div_mod::lemma_small_mod((y + b) as nat, 65536);
                }
                if y + h - 1 - b >= 0 {
                    vstd::arithmetic::div_mod::lemma_small_mod((y + h - 1 - b) as nat, 65536);
                }
                assert(px == x + a || px == x + w - 1 - a);
                assert(py == y + b || py == y + h - 1 - b);
                assert(ox == a);
                assert(oy == b);
                assert(inside);
            }
            if inside && ox < r && oy < r {
                let a = ox;
                let b = oy;
                vstd::arithmetic::div_mod::lemma_small_mod(px as nat, 65536);
                vstd::arithmetic::div_mod::lemma_small_mod(py as nat, 65536);
                assert(hit(a, b, px, py));
                assert(corners);
            }
        }
    }
    assert(cover == inside);
}

/// Law: `draw_round_rect_filled` paints exactly the frame pixels of the rounded rectangle
/// (`in_round_rect`), all four corners alike, and leaves every other pixel as it was, when
/// the rectangle ends within the 16-bit range.
pub proof fn lemma_round_rect_pixels(
    c: Canvas,
    x: int,
    y: int,
    w: int,
    h: int,
    radius: int,
    color: Rgb565,
    px: int,
    py: int,
)
    requires
        c.wf(),
        c.in_bounds(px, py),
        x + w <= 65536,
        y + h <= 65536,
    ensures
        round_rect_spec(c, x, y, w, h, radius, color).at(px, py) == (if in_round_rect(
            x,
            y,
            w,
            h,
            radius,
            px,
            py,
        ) {
            color
        } else {
            c.at(px, py)
        }),
{
    lemma_round_rect_at(c, x, y, w, h, radius, color, px, py);
    lemma_round_rect_cover_iff(c.width as int, c.height as int, x, y, w, h, radius, px, py);
}

} // verus!
