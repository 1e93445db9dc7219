//! Frame and page buffers of RGB565 pixels, and their encodings for the panel.
use vstd::prelude::*;
use crate::canvas::{self, Canvas, Rgb565};

verus! {

impl Rgb565 {
    pub fn black() -> (c: Rgb565)
        ensures
            c == Rgb565(0x0000),
    {
        Rgb565(0x0000)
    }

    pub fn white() -> (c: Rgb565)
        ensures
            c == Rgb565(0xFFFF),
    {
        Rgb565(0xFFFF)
    }

    pub fn red() -> (c: Rgb565)
        ensures
            c == Rgb565(0xF800),
    {
        Rgb565(0xF800)
    }

    pub fn green() -> (c: Rgb565)
        ensures
            c == Rgb565(0x07E0),
    {
        Rgb565(0x07E0)
    }

    pub fn blue() -> (c: Rgb565)
        ensures
            c == Rgb565(0x001F),
    {
        Rgb565(0x001F)
    }

    pub fn yellow() -> (c: Rgb565)
        ensures
            c == Rgb565(0xFFE0),
    {
        Rgb565(0xFFE0)
    }

    pub fn cyan() -> (c: Rgb565)
        ensures
            c == Rgb565(0x07FF),
    {
        Rgb565(0x07FF)
    }

    pub fn magenta() -> (c: Rgb565)
        ensures
            c == Rgb565(0xF81F),
    {
        Rgb565(0xF81F)
    }


    /// The two bytes of the colour, most significant first.
    pub fn to_be_bytes(self) -> (r: [u8; 2])
        ensures
            r@ == be_bytes(self),
    {
        let v = self.0;
        let r = [(v / 256) as u8, (v % 256) as u8];
        assert(r@ =~= be_bytes(self));
        r
    }
}

/// Big-endian encoding of one pixel.
pub open spec fn be_bytes(c: Rgb565) -> Seq<u8> {
    seq![(c.0 / 256) as u8, (c.0 % 256) as u8]
}

} // verus!

verus! {

/// Most significant byte of a pixel.
pub open spec fn hi_byte(c: Rgb565) -> u8 {
    (c.0 / 256) as u8
}

/// Least significant byte of a pixel.
pub open spec fn lo_byte(c: Rgb565) -> u8 {
    (c.0 % 256) as u8
}

/// Pixels encoded two bytes each, most significant byte first.
pub open spec fn be_stream(px: Seq<Rgb565>) -> Seq<u8> {
    Seq::new(
        2 * px.len(),
        |i: int|
            if i % 2 == 0 {
                hi_byte(px[i / 2])
            } else {
                lo_byte(px[i / 2])
            },
    )
}

/// The 5-bit red channel.
pub open spec fn red5(c: Rgb565) -> int {
    (c.0 / 2048) as int
}

/// The 6-bit green channel.
pub open spec fn green6(c: Rgb565) -> int {
    ((c.0 / 32) % 64) as int
}

/// The 5-bit blue channel.
pub open spec fn blue5(c: Rgb565) -> int {
    (c.0 % 32) as int
}

/// Widens a 5-bit channel to 6 bits by repeating its top bit below it.
pub open spec fn widen5to6(v: int) -> int {
    2 * v + v / 16
}

/// The three bytes of a pixel in the panel's 18-bit format: each 6-bit channel in the top
/// six bits of its byte, red first.
pub open spec fn rgb666_bytes(c: Rgb565) -> Seq<u8> {
    seq![
        (4 * widen5to6(red5(c))) as u8,
        (4 * green6(c)) as u8,
        (4 * widen5to6(blue5(c))) as u8,
    ]
}

/// Pixels encoded three bytes each in the 18-bit format.
pub open spec fn rgb666_stream(px: Seq<Rgb565>) -> Seq<u8> {
    Seq::new(3 * px.len(), |i: int| rgb666_bytes(px[i / 3])[i % 3])
}

/// The pixels of a grid, column after column, each column top to bottom.
pub open spec fn column_major(c: Canvas) -> Seq<Rgb565> {
    Seq::new(c.width * c.height, |k: int| c.at(k / (c.height as int), k % (c.height as int)))
}

/// The pixels of a grid in the given scan order.
pub open spec fn scan(c: Canvas, order: FlushOrder) -> Seq<Rgb565> {
    match order {
        FlushOrder::RowMajor => c.pixels,
        FlushOrder::ColumnMajor => column_major(c),
    }
}

/// The byte stream sent to the panel for a grid: 18-bit pixels when the pixel-format
/// register value is `0x66`, 16-bit big-endian pixels otherwise.
pub open spec fn transfer_bytes(c: Canvas, pixel_format: u8, order: FlushOrder) -> Seq<u8> {
    if pixel_format == 0x66 {
        rgb666_stream(scan(c, order))
    } else {
        be_stream(scan(c, order))
    }
}

/// Order in which pixels are sent to the panel.
#[derive(Clone, Copy, PartialEq, Eq, Structural, Debug)]
pub enum FlushOrder {
    RowMajor,
    ColumnMajor,
}

/// A rectangle of the frame, given by its top-left corner and size.
#[derive(Clone, Copy, Debug)]
pub struct DirtyRegion {
    pub x: u16,
    pub y: u16,
    pub width: u16,
    pub height: u16,
}

/// A full frame of pixels in row-major order.
pub struct FrameBuffer {
    width: u16,
    height: u16,
    pixels: Vec<Rgb565>,
}

/// A smaller buffer that holds one page (a band of rows) of a frame.
pub struct PageBuffer {
    width: u16,
    height: u16,
    pixels: Vec<Rgb565>,
}

/// Bytes ready to be written to the panel.
pub struct TransferBuffer {
    bytes: Vec<u8>,
}

impl View for FrameBuffer {
    type V = Canvas;

    closed spec fn view(&self) -> Canvas {
        Canvas { width: self.width as nat, height: self.height as nat, pixels: self.pixels@ }
    }
}

impl View for PageBuffer {
    type V = Canvas;

    closed spec fn view(&self) -> Canvas {
        Canvas { width: self.width as nat, height: self.height as nat, pixels: self.pixels@ }
    }
}

impl View for TransferBuffer {
    type V = Seq<u8>;

    closed spec fn view(&self) -> Seq<u8> {
        self.bytes@
    }
}

/// A vector of `n` copies of one colour.
fn filled_pixels(n: usize, color: Rgb565) -> (v: Vec<Rgb565>)
    ensures
        v@ == Seq::new(n as nat, |i: int| color),
{
    let mut v: Vec<Rgb565> = Vec::with_capacity(n);
    let mut i: usize = 0;
    while i < n
        invariant
            i <= n,
            v@ == Seq::new(i as nat, |j: int| color),
        decreases n - i,
    {
        v.push(color);
        i = i + 1;
        assert(v@ =~= Seq::new(i as nat, |j: int| color));
    }
    v
}

/// Overwrites every entry of `v` with `color`.
fn fill_all(v: &mut Vec<Rgb565>, color: Rgb565)
    ensures
        final(v)@ == Seq::new(old(v)@.len(), |i: int| color),
{
    let n = v.len();
    let mut i: usize = 0;
    while i < n
        invariant
            i <= n,
            n == v@.len(),
            forall|j: int| 0 <= j < i ==> v@[j] == color,
        decreases n - i,
    {
        v.set(i, color);
        i = i + 1;
    }
    assert(v@ =~= Seq::new(n as nat, |i: int| color));
}

/// The 16-bit big-endian encoding of a run of pixels.
fn encode_be(px: &Vec<Rgb565>) -> (out: Vec<u8>)
    requires
        2 * px@.len() <= usize::MAX,
    ensures
        out@ == be_stream(px@),
{
    let n = px.len();
    let mut out: Vec<u8> = Vec::with_capacity(n * 2);
    let mut i: usize = 0;
    while i < n
        invariant
            i <= n,
            n == px@.len(),
            2 * n <= usize::MAX,
            out@.len() == 2 * i,
            forall|j: int| 0 <= j < 2 * i ==> out@[j] == be_stream(px@)[j],
        decreases n - i,
    {
        let b = px[i].to_be_bytes();
        out.push(b[0]);
        out.push(b[1]);
        i = i + 1;
    }
    assert(out@ =~= be_stream(px@));
    out
}

/// The 18-bit encoding of one pixel.
fn encode_666(c: Rgb565) -> (r: [u8; 3])
    ensures
        r@ == rgb666_bytes(c),
{
    let v = c.0;
    let r5 = ((v >> 11) & 0x1F) as u8;
    let g6 = ((v >> 5) & 0x3F) as u8;
    let b5 = (v & 0x1F) as u8;
    assert(r5 == v / 2048 && g6 == (v / 32) % 64 && b5 == v % 32) by (bit_vector)
        requires
            r5 == ((v >> 11) & 0x1F) as u8,
            g6 == ((v >> 5) & 0x3F) as u8,
            b5 == (v & 0x1F) as u8,
    ;
    let r6 = (r5 << 1) | (r5 >> 4);
    let b6 = (b5 << 1) | (b5 >> 4);
    assert(r6 == 2 * r5 + r5 / 16 && r6 < 64) by (bit_vector)
        requires
            r5 < 32,
            r6 == (r5 << 1) | (r5 >> 4),
    ;
    assert(b6 == 2 * b5 + b5 / 16 && b6 < 64) by (bit_vector)
        requires
            b5 < 32,
            b6 == (b5 << 1) | (b5 >> 4),
    ;
    let x0 = r6 << 2;
    let x1 = g6 << 2;
    let x2 = b6 << 2;
    assert(x0 == 4 * r6 && x1 == 4 * g6 && x2 == 4 * b6) by (bit_vector)
        requires
            r6 < 64,
            g6 < 64,
            b6 < 64,
            x0 == r6 << 2,
            x1 == g6 << 2,
            x2 == b6 << 2,
    ;
    let r = [x0, x1, x2];
    assert(r@ =~= rgb666_bytes(c));
    r
}

/// The 18-bit encoding of a run of pixels.
fn encode_666_all(px: &Vec<Rgb565>) -> (out: Vec<u8>)
    requires
        3 * px@.len() <= usize::MAX,
    ensures
        out@ == rgb666_stream(px@),
{
    let n = px.len();
    let mut out: Vec<u8> = Vec::with_capacity(n * 3);
    let mut i: usize = 0;
    while i < n
        invariant
            i <= n,
            n == px@.len(),
            3 * n <= usize::MAX,
            out@.len() == 3 * i,
            forall|j: int| 0 <= j < 3 * i ==> out@[j] == rgb666_stream(px@)[j],
        decreases n - i,
    {
        let b = encode_666(px[i]);
        out.push(b[0]);
        out.push(b[1]);
        out.push(b[2]);
        i = i + 1;
    }
    assert(out@ =~= rgb666_stream(px@));
    out
}

} // verus!

verus! {

impl FrameBuffer {
    /// A `width` by `height` frame, all black.
    pub fn new(width: u16, height: u16) -> (fb: FrameBuffer)
        ensures
            fb@ == canvas::solid(width as nat, height as nat, Rgb565(0)),
            fb@.wf(),
    {
        proof {
            assert(width * height <= 0xFFFF * 0xFFFF) by (nonlinear_arith)
                requires
                    width <= 0xFFFF,
                    height <= 0xFFFF,
            ;
        }
        let n = width as usize * height as usize;
        let pixels = filled_pixels(n, Rgb565::black());
        FrameBuffer { width, height, pixels }
    }

    pub fn width(&self) -> (w: u16)
        requires
            self@.wf(),
        ensures
            w == self@.width,
            self@.wf(),
    {
        self.width
    }

    pub fn height(&self) -> (h: u16)
        requires
            self@.wf(),
        ensures
            h == self@.height,
            self@.wf(),
    {
        self.height
    }

    /// Sets every pixel to `color`.
    pub fn clear(&mut self, color: Rgb565)
        requires
            old(self)@.wf(),
        ensures
            final(self)@ == canvas::solid(old(self)@.width, old(self)@.height, color),
            final(self)@.wf(),
    {
        let n = self.pixels.len();
        self.pixels = filled_pixels(n, color);
    }

    /// Sets the pixel at column `x`, row `y`; a position outside the frame changes nothing.
    pub fn set_pixel(&mut self, x: u16, y: u16, color: Rgb565)
        requires
            old(self)@.wf(),
        ensures
            final(self)@ == canvas::paint(old(self)@, |px: int, py: int| px == x && py == y, color),
            final(self)@.wf(),
    {
        let ghost c0 = self@;
        let ghost pred = |px: int, py: int| px == x && py == y;
        if x < self.width && y < self.height {
            let w = self.width as usize;
            proof {
                canvas::lemma_index_in_grid(w as int, self.height as int, x as int, y as int);
                assert((y as int) * (w as int) + (x as int) < self.pixels@.len());
            }
            let _n = self.pixels.len();
            let idx = y as usize * w + x as usize;
            self.pixels.set(idx, color);
            proof {
                let target = canvas::paint(c0, pred, color);
                assert forall|i: int| 0 <= i < c0.pixels.len() implies self.pixels@[i]
                    == target.pixels[i] by {
                    canvas::lemma_coords_of_index(w as int, c0.height as int, i);
                    if i % (w as int) == x && i / (w as int) == y {
                        assert(i == idx);
                    }
                }
                assert(self.pixels@ =~= target.pixels);
            }
        } else {
            proof {
                canvas::lemma_paint_nothing(c0, pred, color);
            }
        }
    }

    /// The frame as 16-bit big-endian pixels in row-major order.
    pub fn as_bytes_be(&self) -> (out: Vec<u8>)
        requires
            2 * self@.pixels.len() <= usize::MAX,
        ensures
            out@ == be_stream(self@.pixels),
    {
        encode_be(&self.pixels)
    }

    /// The frame as 18-bit pixels in row-major order.
    pub fn as_bytes_666_from_565(&self) -> (out: Vec<u8>)
        requires
            3 * self@.pixels.len() <= usize::MAX,
        ensures
            out@ == rgb666_stream(self@.pixels),
    {
        encode_666_all(&self.pixels)
    }

    /// The pixels in column-major order.
    fn column_major_pixels(&self) -> (out: Vec<Rgb565>)
        requires
            self@.wf(),
        ensures
            out@ == column_major(self@),
    {
        let w = self.width;
        let h = self.height;
        let ghost c = self@;
        proof {
            assert(w * h <= 0xFFFF * 0xFFFF) by (nonlinear_arith)
                requires
                    w <= 0xFFFF,
                    h <= 0xFFFF,
            ;
        }
        let mut out: Vec<Rgb565> = Vec::with_capacity(w as usize * h as usize);
        let mut x: u16 = 0;
        while x < w
            invariant
                c == self@,
                c.wf(),
                w == c.width,
                h == c.height,
                x <= w,
                out@.len() == x * h,
                forall|k: int| 0 <= k < out@.len() ==> out@[k] == column_major(c)[k],
            decreases w - x,
        {
            let mut y: u16 = 0;
            while y < h
                invariant
                    c == self@,
                    c.wf(),
                    w == c.width,
                    h == c.height,
                    x < w,
                    y <= h,
                    out@.len() == x * h + y,
                    forall|k: int| 0 <= k < out@.len() ==> out@[k] == column_major(c)[k],
                decreases h - y,
            {
                proof {
                    canvas::lemma_index_in_grid(w as int, h as int, x as int, y as int);
                    canvas::lemma_index_in_grid(h as int, w as int, y as int, x as int);
                    assert((y as int) * (w as int) + (x as int) < self.pixels@.len());

                    assert(x * h + y == w * h - (w - x) * h + y) by (nonlinear_arith);
                    assert((w - x) * h >= h) by (nonlinear_arith)
                        requires
                            x < w,
                            h >= 0,
                    ;
                }
                let _n = self.pixels.len();
                let idx = y as usize * w as usize + x as usize;
                out.push(self.pixels[idx]);
                y = y + 1;
            }
            x = x + 1;
            proof {
                assert(x * h == (x - 1) * h + h) by (nonlinear_arith);
            }
        }
        proof {
            assert(out@.len() == w * h);
        }
        assert(out@ =~= column_major(c));
        out
    }

    /// The frame as 16-bit big-endian pixels in the given scan order.
    pub fn as_bytes_be_with_order(&self, order: FlushOrder) -> (out: Vec<u8>)
        requires
            self@.wf(),
            2 * self@.pixels.len() <= usize::MAX,
        ensures
            out@ == be_stream(scan(self@, order)),
    {
        match order {
            FlushOrder::RowMajor => self.as_bytes_be(),
            FlushOrder::ColumnMajor => {
                let px = self.column_major_pixels();
                encode_be(&px)
            },
        }
    }

    /// The frame as 18-bit pixels in the given scan order.
    pub fn as_bytes_666_from_565_with_order(&self, order: FlushOrder) -> (out: Vec<u8>)
        requires
            self@.wf(),
            3 * self@.pixels.len() <= usize::MAX,
        ensures
            out@ == rgb666_stream(scan(self@, order)),
    {
        match order {
            FlushOrder::RowMajor => self.as_bytes_666_from_565(),
            FlushOrder::ColumnMajor => {
                let px = self.column_major_pixels();
                encode_666_all(&px)
            },
        }
    }

    /// The bytes to send for this frame: 18-bit pixels when `pixel_format` is `0x66`,
    /// 16-bit big-endian pixels otherwise.
    pub fn to_transfer_buffer(&self, pixel_format: u8, order: FlushOrder) -> (tx: TransferBuffer)
        requires
            self@.wf(),
            3 * self@.pixels.len() <= usize::MAX,
        ensures
            tx@ == transfer_bytes(self@, pixel_format, order),
    {
        let bytes = if pixel_format == 0x66 {
            self.as_bytes_666_from_565_with_order(order)
        } else {
            self.as_bytes_be_with_order(order)
        };
        TransferBuffer { bytes }
    }
}

} // verus!

verus! {

/// The smaller of two integers.
pub open spec fn min_int(a: int, b: int) -> int {
    if a <= b {
        a
    } else {
        b
    }
}

/// `a - b`, or zero when `b` exceeds `a`.
pub open spec fn sat_sub(a: int, b: int) -> int {
    if a >= b {
        a - b
    } else {
        0
    }
}

/// Number of rows that `copy_region_to_page` copies.
pub open spec fn copied_rows(src: Canvas, region: DirtyRegion, page: Canvas) -> int {
    min_int(min_int(region.height as int, page.height as int), sat_sub(src.height as int, region.y as int))
}

/// Number of columns that `copy_region_to_page` copies.
pub open spec fn copied_cols(src: Canvas, region: DirtyRegion, page: Canvas) -> int {
    min_int(min_int(region.width as int, page.width as int), sat_sub(src.width as int, region.x as int))
}

/// The page after copying `region` of `src` into it: the part of the region that fits both
/// the frame and the page lands in the page's top-left corner, and the rest of the page is black.
pub open spec fn region_copy(src: Canvas, region: DirtyRegion, page: Canvas) -> Canvas {
    Canvas {
        width: page.width,
        height: page.height,
        pixels: Seq::new(
            page.width * page.height,
            |i: int|
                {
                    let col = i % (page.width as int);
                    let row = i / (page.width as int);
                    if row < copied_rows(src, region, page) && col < copied_cols(src, region, page) {
                        src.at(region.x + col, region.y + row)
                    } else {
                        Rgb565(0)
                    }
                },
        ),
    }
}

/// The smaller of two numbers.
pub fn min_u16(a: u16, b: u16) -> (r: u16)
    ensures
        r == min_int(a as int, b as int),
{
    if a <= b {
        a
    } else {
        b
    }
}

impl FrameBuffer {
    /// Copies `region` of the frame into the top-left corner of `page`, clearing the rest of
    /// the page to black; the copy is clipped to both the frame and the page.
    pub fn copy_region_to_page(&self, region: DirtyRegion, page: &mut PageBuffer)
        requires
            self@.wf(),
            old(page)@.wf(),
        ensures
            final(page)@ == region_copy(self@, region, old(page)@),
            final(page)@.wf(),
    {
        let ghost src = self@;
        let ghost page0 = page@;
        let rows = min_u16(min_u16(region.height, page.height), self.height.saturating_sub(region.y));
        let cols = min_u16(min_u16(region.width, page.width), self.width.saturating_sub(region.x));
        page.clear(Rgb565::black());
        proof {
            assert forall|c: int, r: int| #![trigger page@.at(c, r)] page@.in_bounds(c, r) implies page@.at(c, r) == Rgb565(0) by {
                canvas::lemma_index_in_grid(page0.width as int, page0.height as int, c, r);
            }
        }
        let pw = page.width;
        let w = self.width;
        let mut row: u16 = 0;
        while row < rows
            invariant
                src == self@,
                src.wf(),
                page@.wf(),
                page@.width == page0.width,
                page@.height == page0.height,
                pw == page0.width,
                w == src.width,
                rows == copied_rows(src, region, page0),
                cols == copied_cols(src, region, page0),
                row <= rows,
                forall|c: int, r: int|
                    #![trigger page@.at(c, r)]
                    page@.in_bounds(c, r) ==> page@.at(c, r) == (if r < row && c < cols {
                        src.at(region.x + c, region.y + r)
                    } else {
                        Rgb565(0)
                    }),
            decreases rows - row,
        {
            let mut col: u16 = 0;
            while col < cols
                invariant
                    src == self@,
                    src.wf(),
                    page@.wf(),
                    page@.width == page0.width,
                    page@.height == page0.height,
                    pw == page0.width,
                    w == src.width,
                    rows == copied_rows(src, region, page0),
                    cols == copied_cols(src, region, page0),
                    row < rows,
                    col <= cols,
                    forall|c: int, r: int|
                        #![trigger page@.at(c, r)]
                        page@.in_bounds(c, r) ==> page@.at(c, r) == (if (r < row && c < cols) || (r
                            == row && c < col) {
                            src.at(region.x + c, region.y + r)
                        } else {
                            Rgb565(0)
                        }),
                decreases cols - col,
            {
                let sx = region.x + col;
                let sy = region.y + row;
                proof {
                    canvas::lemma_index_in_grid(w as int, src.height as int, sx as int, sy as int);
                    canvas::lemma_index_in_grid(pw as int, page0.height as int, col as int, row as int);
                }
                let _n = self.pixels.len();
                let _m = page.pixels.len();
                let s = sy as usize * w as usize + sx as usize;
                let d = row as usize * pw as usize + col as usize;
                let ghost before = page@;
                page.pixels.set(d, self.pixels[s]);
                proof {
                    assert forall|c: int, r: int| #![trigger page@.at(c, r)] page@.in_bounds(c, r) implies page@.at(c, r) == (if (r < row && c < cols) || (r == row && c < col + 1) {
                        src.at(region.x + c, region.y + r)
                    } else {
                        Rgb565(0)
                    }) by {
                        canvas::lemma_index_in_grid(pw as int, page0.height as int, c, r);
                        if c != col || r != row {
                            assert(r * pw + c != row * pw + col) by {
                                if r * pw + c == row * pw + col {
                                    assert((r * pw + c) % (pw as int) == c);
                                    assert((r * pw + c) / (pw as int) == r);
                                }
                            }
                            assert(page@.at(c, r) == before.at(c, r));
                        }
                    }
                }
                col = col + 1;
            }
            row = row + 1;
        }
        proof {
            let target = region_copy(src, region, page0);
            assert forall|c: int, r: int| page@.in_bounds(c, r) implies page@.at(c, r) == target.at(c, r) by {
                canvas::lemma_index_in_grid(pw as int, page0.height as int, c, r);
                assert(page@.at(c, r) == (if r < rows && c < cols {
                        src.at(region.x + c, region.y + r)
                    } else {
                        Rgb565(0)
                    }));
            }
            canvas::lemma_canvas_ext(page@, target);
        }
    }
}

impl PageBuffer {
    /// A `width` by `height` page, all black.
    pub fn new(width: u16, height: u16) -> (pb: PageBuffer)
        ensures
            pb@ == canvas::solid(width as nat, height as nat, Rgb565(0)),
            pb@.wf(),
    {
        proof {
            assert(width * height <= 0xFFFF * 0xFFFF) by (nonlinear_arith)
                requires
                    width <= 0xFFFF,
                    height <= 0xFFFF,
            ;
        }
        let n = width as usize * height as usize;
        let pixels = filled_pixels(n, Rgb565::black());
        PageBuffer { width, height, pixels }
    }

    pub fn width(&self) -> (w: u16)
        requires
            self@.wf(),
        ensures
            w == self@.width,
    {
        self.width
    }

    pub fn height(&self) -> (h: u16)
        requires
            self@.wf(),
        ensures
            h == self@.height,
    {
        self.height
    }

    /// Sets every pixel of the page to `color`.
    pub fn clear(&mut self, color: Rgb565)
        requires
            old(self)@.wf(),
        ensures
            final(self)@ == canvas::solid(old(self)@.width, old(self)@.height, color),
            final(self)@.wf(),
    {
        let n = self.pixels.len();
        self.pixels = filled_pixels(n, color);
    }

    /// The page as 16-bit big-endian pixels in row-major order.
    pub fn as_bytes_be(&self) -> (out: Vec<u8>)
        requires
            2 * self@.pixels.len() <= usize::MAX,
        ensures
            out@ == be_stream(self@.pixels),
    {
        encode_be(&self.pixels)
    }
}

impl TransferBuffer {
    pub fn new() -> (tx: TransferBuffer)
        ensures
            tx@ == Seq::<u8>::empty(),
    {
        TransferBuffer { bytes: Vec::new() }
    }

    pub fn from_bytes(bytes: Vec<u8>) -> (tx: TransferBuffer)
        ensures
            tx@ == bytes@,
    {
        TransferBuffer { bytes }
    }

    pub fn as_slice(&self) -> (s: &[u8])
        ensures
            s@ == self@,
    {
        self.bytes.as_slice()
    }

    pub fn len(&self) -> (n: usize)
        ensures
            n == self@.len(),
    {
        self.bytes.len()
    }

    pub fn is_empty(&self) -> (b: bool)
        ensures
            b == (self@.len() == 0),
    {
        self.bytes.len() == 0
    }
}

} // verus!

verus! {

/// Law: the 16-bit encoding loses nothing: bytes `2i` and `2i + 1` of a frame's stream,
/// read most significant first, are the value of pixel `i`.
pub proof fn lemma_be_stream_roundtrip(px: Seq<Rgb565>)
    ensures
        be_stream(px).len() == 2 * px.len(),
        forall|i: int|
            0 <= i < px.len() ==> (be_stream(px)[2 * i] as int) * 256 + (be_stream(px)[2 * i + 1] as int)
                == (#[trigger] px[i]).0,
{
    assert forall|i: int| 0 <= i < px.len() implies (be_stream(px)[2 * i] as int) * 256 + (be_stream(px)[2
        * i + 1] as int) == (#[trigger] px[i]).0 by {
        assert((2 * i) / 2 == i);
        assert((2 * i + 1) / 2 == i);
        assert((2 * i) % 2 == 0);
        assert((2 * i + 1) % 2 == 1);
    }
}

/// Law: the 18-bit encoding keeps every bit of the 16-bit colour: the top five bits of the
/// first byte are the red channel, the top six of the second the green channel, and the top
/// five of the third the blue channel.
pub proof fn lemma_rgb666_keeps_channels(c: Rgb565)
    ensures
        rgb666_bytes(c)[0] / 8 == red5(c),
        rgb666_bytes(c)[1] / 4 == green6(c),
        rgb666_bytes(c)[2] / 8 == blue5(c),
        rgb666_bytes(c)[0] % 4 == 0 && rgb666_bytes(c)[1] % 4 == 0 && rgb666_bytes(c)[2] % 4 == 0,
{
    assert(0 <= red5(c) < 32);
    assert(0 <= blue5(c) < 32);
    assert(0 <= green6(c) < 64);
}

/// Law: the column-major scan is the transpose of the row-major one: the pixel at column
/// `x`, row `y` is the `(x * height + y)`-th of the column-major order.
pub proof fn lemma_column_major_transposes(c: Canvas, x: int, y: int)
    requires
        c.wf(),
        c.in_bounds(x, y),
    ensures
        0 <= x * c.height + y < column_major(c).len(),
        column_major(c)[x * c.height + y] == c.at(x, y),
{
    canvas::lemma_index_in_grid(c.height as int, c.width as int, y, x);
    assert(x * c.height + y < c.height * c.width);
    assert(c.height * c.width == c.width * c.height) by (nonlinear_arith);
}

} // verus!

verus! {

/// Law: copying a region into a page puts frame pixel `(region.x + c, region.y + r)` at page
/// pixel `(c, r)` wherever that column and row lie inside the region and the frame; every
/// other page pixel is black, and the page keeps its size.
pub proof fn lemma_region_copy_pixels(src: Canvas, region: DirtyRegion, page: Canvas, c: int, r: int)
    requires
        src.wf(),
        page.wf(),
        page.in_bounds(c, r),
    ensures
        region_copy(src, region, page).wf(),
        region_copy(src, region, page).width == page.width,
        region_copy(src, region, page).height == page.height,
        region_copy(src, region, page).at(c, r) == (if c < region.width && r < region.height && region.x + c
            < src.width && region.y + r < src.height {
            src.at(region.x + c, region.y + r)
        } else {
            Rgb565(0)
        }),
{
    canvas::lemma_index_in_grid(page.width as int, page.height as int, c, r);
}

} // verus!
