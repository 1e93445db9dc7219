//! Decisions of the command-line program: which pattern to draw, the panel's geometry and
//! how a frame is cut into pages.
use vstd::prelude::*;
use crate::bus;
use crate::canvas::{Canvas, Rgb565};
use crate::framebuffer::{self, DirtyRegion, FrameBuffer};
use crate::render::patterns;
use crate::text;

verus! {

/// The test patterns the program can draw.
#[derive(Clone, Copy, Debug, PartialEq, Eq, Structural)]
pub enum Pattern {
    Red,
    Green,
    Blue,
    White,
    Black,
    Bars,
    Quad,
    Xo,
    Status,
    DebugMap,
    Dashboard,
}

/// The pattern a name selects; red for any unknown name.
pub open spec fn pattern_named(s: Seq<char>) -> Pattern {
    if s == "green"@ { Pattern::Green }
    else if s == "blue"@ { Pattern::Blue }
    else if s == "white"@ { Pattern::White }
    else if s == "black"@ { Pattern::Black }
    else if s == "bars"@ { Pattern::Bars }
    else if s == "quad"@ { Pattern::Quad }
    else if s == "xo"@ { Pattern::Xo }
    else if s == "status"@ { Pattern::Status }
    else if s == "debugmap"@ { Pattern::DebugMap }
    else if s == "dashboard"@ { Pattern::Dashboard }
    else { Pattern::Red }
}

impl Pattern {
    /// The pattern a command-line name selects; red for any unknown name.
    pub fn parse(s: &str) -> (p: Pattern)
        ensures
            p == pattern_named(s@),
    {
        if text::str_eq(s, "green") {
            Pattern::Green
        } else if text::str_eq(s, "blue") {
            Pattern::Blue
        } else if text::str_eq(s, "white") {
            Pattern::White
        } else if text::str_eq(s, "black") {
            Pattern::Black
        } else if text::str_eq(s, "bars") {
            Pattern::Bars
        } else if text::str_eq(s, "quad") {
            Pattern::Quad
        } else if text::str_eq(s, "xo") {
            Pattern::Xo
        } else if text::str_eq(s, "status") {
            Pattern::Status
        } else if text::str_eq(s, "debugmap") {
            Pattern::DebugMap
        } else if text::str_eq(s, "dashboard") {
            Pattern::Dashboard
        } else {
            Pattern::Red
        }
    }
}

/// The panel's width and height in the drawing orientation: swapped when the memory access
/// control register is `0x88`.
pub fn panel_dimensions(width: u16, height: u16, madctl: u8) -> (r: (u16, u16))
    ensures
        r == (if madctl == 0x88 { (height, width) } else { (width, height) }),
{
    if madctl == 0x88 {
        (height, width)
    } else {
        (width, height)
    }
}

/// The frame after drawing a pattern.
pub open spec fn pattern_spec(c: Canvas, p: Pattern) -> Canvas {
    match p {
        Pattern::Red => crate::canvas::solid(c.width, c.height, Rgb565(0xF800)),
        Pattern::Green => crate::canvas::solid(c.width, c.height, Rgb565(0x07E0)),
        Pattern::Blue => crate::canvas::solid(c.width, c.height, Rgb565(0x001F)),
        Pattern::White => crate::canvas::solid(c.width, c.height, Rgb565(0xFFFF)),
        Pattern::Black => crate::canvas::solid(c.width, c.height, Rgb565(0x0000)),
        Pattern::Bars => patterns::color_bars_spec(c),
        Pattern::Quad => patterns::quad_canvas(c.width, c.height),
        Pattern::Xo => patterns::xo_spec(c),
        Pattern::Status => patterns::status_page_spec(c),
        Pattern::DebugMap => patterns::debug_map_spec(c),
        Pattern::Dashboard => c,
    }
}

/// Draws the selected pattern, other than the dashboard, which needs the clock and the
/// codes (`apple_delta_dashboard_demo`). The status page needs a frame at least 16 pixels
/// each way.
pub fn render_pattern(fb: &mut FrameBuffer, p: Pattern)
    requires
        old(fb)@.wf(),
        p != Pattern::Dashboard,
        p == Pattern::Status ==> old(fb)@.width >= 16 && old(fb)@.height >= 16,
    ensures
        final(fb)@ == pattern_spec(old(fb)@, p),
        final(fb)@.wf(),
{
    match p {
        Pattern::Red => fb.clear(Rgb565::red()),
        Pattern::Green => fb.clear(Rgb565::green()),
        Pattern::Blue => fb.clear(Rgb565::blue()),
        Pattern::White => fb.clear(Rgb565::white()),
        Pattern::Black => fb.clear(Rgb565::black()),
        Pattern::Bars => patterns::color_bars(fb),
        Pattern::Quad => patterns::quad(fb),
        Pattern::Xo => patterns::xo_center_demo(fb),
        Pattern::Status => patterns::status_page_demo(fb),
        Pattern::DebugMap => patterns::debug_map(fb),
        Pattern::Dashboard => {},
    }
}

/// Page `k` of a frame `width` wide and `height` high cut into bands of `page_height` rows.
pub open spec fn page_region(width: u16, height: u16, page_height: u16, k: int) -> DirtyRegion {
    let r = bus::chunk_at(height as int, page_height as int, k);
    DirtyRegion { x: 0, y: r.0 as u16, width, height: (r.1 - r.0) as u16 }
}

/// The bands of `page_height` rows, top to bottom, that cover a frame `width` wide and
/// `height` high; the last band holds the remaining rows.
pub fn page_regions(width: u16, height: u16, page_height: u16) -> (r: Vec<DirtyRegion>)
    requires
        page_height >= 1 || height == 0,
    ensures
        r@.len() == (if height == 0 { 0 } else { bus::chunk_count(height as int, page_height as int) }),
        forall|k: int|
            0 <= k < r@.len() ==> (#[trigger] r@[k]) == page_region(width, height, page_height, k),
{
    let mut r: Vec<DirtyRegion> = Vec::new();
    if height == 0 {
        return r;
    }
    let ranges = bus::chunk_ranges(height as usize, page_height as usize);
    let mut k: usize = 0;
    while k < ranges.len()
        invariant
            k <= ranges@.len(),
            r@.len() == k,
            page_height >= 1,
            ranges@.len() == bus::chunk_count(height as int, page_height as int),
            forall|i: int|
                0 <= i < ranges@.len() ==> (#[trigger] ranges@[i]).0 as int == bus::chunk_at(height as int, page_height as int, i).0
                    && ranges@[i].1 as int == bus::chunk_at(height as int, page_height as int, i).1,
            forall|i: int| 0 <= i < ranges@.len() ==> (#[trigger] ranges@[i]).0 <= ranges@[i].1 <= height,
            forall|i: int| 0 <= i < k ==> (#[trigger] r@[i]) == page_region(width, height, page_height, i),
        decreases ranges@.len() - k,
    {
        let (a, b) = ranges[k];
        r.push(DirtyRegion { x: 0, y: a as u16, width, height: (b - a) as u16 });
        k = k + 1;
    }
    r
}

} // verus!

verus! {

/// The bytes `flush_region` sends for band `k` after `copy_region_to_page` filled the page.
pub open spec fn band_payload(fb: Canvas, page: Canvas, page_height: u16, k: int) -> Seq<u8> {
    let region = page_region(fb.width as u16, fb.height as u16, page_height, k);
    let bytes = framebuffer::be_stream(framebuffer::region_copy(fb, region, page).pixels);
    bytes.take(crate::panel::region_payload_len(region, bytes.len() as int))
}

/// The bytes of the first `n` bands, one band after another.
pub open spec fn page_flush_bytes(fb: Canvas, page: Canvas, page_height: u16, n: int) -> Seq<u8>
    decreases n,
{
    if n <= 0 {
        Seq::empty()
    } else {
        page_flush_bytes(fb, page, page_height, n - 1) + band_payload(fb, page, page_height, n - 1)
    }
}

proof fn lemma_be_stream_subrange(s: Seq<Rgb565>, a: int, b: int)
    requires
        0 <= a <= b <= s.len(),
    ensures
        framebuffer::be_stream(s).subrange(2 * a, 2 * b) == framebuffer::be_stream(s.subrange(a, b)),
{
    let l = framebuffer::be_stream(s).subrange(2 * a, 2 * b);
    let r = framebuffer::be_stream(s.subrange(a, b));
    assert forall|i: int| 0 <= i < l.len() implies l[i] == r[i] by {
        assert((2 * a + i) / 2 == a + i / 2);
        assert((2 * a + i) % 2 == i % 2);
    }
    assert(l =~= r);
}

proof fn lemma_band(fb: Canvas, page: Canvas, page_height: u16, k: int)
    requires
        fb.wf(),
        page.wf(),
        page.width == fb.width,
        page.height == page_height,
        page_height >= 1,
        fb.width >= 1,
        fb.width <= 0xFFFF,
        fb.height <= 0xFFFF,
        0 <= k < bus::chunk_count(fb.height as int, page_height as int),
    ensures
        ({
            let r = bus::chunk_at(fb.height as int, page_height as int, k);
            &&& 0 <= r.0 < r.1 <= fb.height
            &&& r.0 == k * page_height
            &&& band_payload(fb, page, page_height, k) == framebuffer::be_stream(fb.pixels).subrange(
                2 * (fb.width * r.0),
                2 * (fb.width * r.1),
            )
        }),
{
    let w = fb.width as int;
    let h = fb.height as int;
    let ph = page_height as int;
    let rr = bus::chunk_at(h, ph, k);
    let y = rr.0;
    let y1 = rr.1;
    assert((k + 1) * ph == k * ph + ph) by (nonlinear_arith);
    assert(k * ph < h) by {
        let n = bus::chunk_count(h, ph);
        vstd::arithmetic::div_mod::lemma_fundamental_div_mod(h + ph - 1, ph);
        vstd::arithmetic::div_mod::lemma_mod_bound(h + ph - 1, ph);
        assert(k * ph <= (n - 1) * ph) by (nonlinear_arith)
            requires
                k <= n - 1,
                ph >= 1,
        ;
        assert((n - 1) * ph + ph == ph * n) by (nonlinear_arith);
    }
    assert(0 <= k * ph) by (nonlinear_arith)
        requires
            0 <= k,
            0 <= ph,
    ;
    let hk = y1 - y;
    let region = page_region(fb.width as u16, fb.height as u16, page_height, k);
    assert(region.y == y && region.height == hk && region.x == 0 && region.width == w);
    let copied = framebuffer::region_copy(fb, region, page);
    assert(framebuffer::copied_rows(fb, region, page) == hk);
    assert(framebuffer::copied_cols(fb, region, page) == w);
    let pbytes = framebuffer::be_stream(copied.pixels);
    assert(w * hk <= w * ph) by (nonlinear_arith)
        requires
            hk <= ph,
            w >= 0,
    ;
    assert(hk * w * 2 == 2 * (w * hk)) by (nonlinear_arith);
    assert(crate::panel::region_payload_len(region, pbytes.len() as int) == 2 * (w * hk));
    assert(copied.pixels.len() == w * ph);
    // The first `w * hk` pixels of the page are rows `y .. y1` of the frame.
    let prefix = copied.pixels.subrange(0, w * hk);
    let rows = fb.pixels.subrange(w * y, w * y1);
    assert(w * y1 == w * y + w * hk) by (nonlinear_arith)
        requires
            hk == y1 - y,
    ;
    assert(w * y1 <= w * h) by (nonlinear_arith)
        requires
            y1 <= h,
            w >= 0,
    ;
    assert(0 <= w * y) by (nonlinear_arith)
        requires
            0 <= y,
            0 <= w,
    ;
    assert forall|i: int| 0 <= i < prefix.len() implies prefix[i] == rows[i] by {
        crate::canvas::lemma_coords_of_index(w, hk, i);
        let col = i % w;
        let row = i / w;
        crate::canvas::lemma_coords_of_index(w, ph, i);
        assert((y + row) * w + col == w * y + i) by (nonlinear_arith)
            requires
                i == row * w + col,
        ;
    }
    assert(prefix =~= rows);
    lemma_be_stream_subrange(copied.pixels, 0, w * hk);
    lemma_be_stream_subrange(fb.pixels, w * y, w * y1);
    assert(pbytes.take(2 * (w * hk)) =~= pbytes.subrange(0, 2 * (w * hk)));
}

/// Law: flushing a frame band by band sends the same pixel bytes, in the same order, as the
/// frame's 16-bit row-major encoding. For the bands `page_regions` cuts the frame into, a
/// page as wide as the frame and `page_height` rows high, each band copied into the page by
/// `copy_region_to_page` and sent by `flush_region`, the bytes of all bands one after another
/// are exactly `be_stream` of the frame.
pub proof fn lemma_page_flush_sends_frame(fb: Canvas, page: Canvas, page_height: u16)
    requires
        fb.wf(),
        page.wf(),
        page.width == fb.width,
        page.height == page_height,
        page_height >= 1,
        fb.width <= 0xFFFF,
        fb.height <= 0xFFFF,
    ensures
        page_flush_bytes(fb, page, page_height, bus::chunk_count(fb.height as int, page_height as int))
            == framebuffer::be_stream(fb.pixels),
{
    let w = fb.width as int;
    let h = fb.height as int;
    let ph = page_height as int;
    let n = bus::chunk_count(h, ph);
    if w == 0 {
        assert(fb.pixels.len() == 0);
        lemma_flush_bytes_empty(fb, page, page_height, n);
        assert(framebuffer::be_stream(fb.pixels) =~= Seq::<u8>::empty());
    } else {
        lemma_flush_prefix(fb, page, page_height, n);
        vstd::arithmetic::div_mod::lemma_fundamental_div_mod(h + ph - 1, ph);
        vstd::arithmetic::div_mod::lemma_mod_bound(h + ph - 1, ph);
        assert(n * ph >= h) by (nonlinear_arith)
            requires
                h + ph - 1 == ph * n + (h + ph - 1) % ph,
                (h + ph - 1) % ph < ph,
        ;
        assert(framebuffer::be_stream(fb.pixels).take(2 * (w * h)) =~= framebuffer::be_stream(fb.pixels));
    }
}

proof fn lemma_flush_bytes_empty(fb: Canvas, page: Canvas, page_height: u16, n: int)
    requires
        fb.wf(),
        page.wf(),
        page.width == fb.width,
        fb.width == 0,
    ensures
        page_flush_bytes(fb, page, page_height, n) == Seq::<u8>::empty(),
    decreases n,
{
    if n > 0 {
        lemma_flush_bytes_empty(fb, page, page_height, n - 1);
        assert(page.pixels.len() == 0) by {
            assert(page.width * page.height == 0);
        }
        let region = page_region(fb.width as u16, fb.height as u16, page_height, n - 1);
        let copied = framebuffer::region_copy(fb, region, page);
        assert(copied.pixels.len() == 0) by {
            assert(copied.width * copied.height == 0);
        }
        assert(band_payload(fb, page, page_height, n - 1) =~= Seq::<u8>::empty());
        assert(page_flush_bytes(fb, page, page_height, n) =~= Seq::<u8>::empty());
    }
}

proof fn lemma_flush_prefix(fb: Canvas, page: Canvas, page_height: u16, j: int)
    requires
        fb.wf(),
        page.wf(),
        page.width == fb.width,
        page.height == page_height,
        page_height >= 1,
        fb.width >= 1,
        fb.width <= 0xFFFF,
        fb.height <= 0xFFFF,
        0 <= j <= bus::chunk_count(fb.height as int, page_height as int),
    ensures
        page_flush_bytes(fb, page, page_height, j) == framebuffer::be_stream(fb.pixels).take(
            2 * (fb.width * framebuffer::min_int(j * page_height, fb.height as int)),
        ),
    decreases j,
{
    let w = fb.width as int;
    let h = fb.height as int;
    let ph = page_height as int;
    let bytes = framebuffer::be_stream(fb.pixels);
    if j == 0 {
        assert(0 * ph == 0);
        assert(w * 0 == 0);
        assert(bytes.take(0) =~= Seq::<u8>::empty());
    } else {
        lemma_flush_prefix(fb, page, page_height, j - 1);
        lemma_band(fb, page, page_height, j - 1);
        let r = bus::chunk_at(h, ph, j - 1);
        assert(j * ph == (j - 1) * ph + ph) by (nonlinear_arith);
        assert(framebuffer::min_int((j - 1) * ph, h) == r.0);
        assert(framebuffer::min_int(j * ph, h) == r.1);
        assert(w * r.1 <= w * h) by (nonlinear_arith)
            requires
                r.1 <= h,
                w >= 0,
        ;
        assert(w * r.0 <= w * r.1) by (nonlinear_arith)
            requires
                r.0 <= r.1,
                w >= 0,
        ;
        assert(bytes.take(2 * (w * r.1)) =~= bytes.take(2 * (w * r.0)) + bytes.subrange(2 * (w * r.0), 2 * (w * r.1)));
    }
}

} // verus!
