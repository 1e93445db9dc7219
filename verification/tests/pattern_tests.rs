use rpi_lcd_project::canvas::Rgb565;
use rpi_lcd_project::framebuffer::FrameBuffer;
use rpi_lcd_project::render::patterns::{color_bars, debug_map, quad, status_page_demo, xo_center_demo};
use rpi_lcd_project::render::primitives::{draw_rect_outline, draw_text_5x7, fill_rect};

const RED: u16 = 0xF800;
const GREEN: u16 = 0x07E0;
const BLUE: u16 = 0x001F;
const WHITE: u16 = 0xFFFF;
const YELLOW: u16 = 0xFFE0;
const CYAN: u16 = 0x07FF;
const MAGENTA: u16 = 0xF81F;
const BLACK: u16 = 0x0000;

fn px(fb: &FrameBuffer, x: usize, y: usize) -> u16 {
    let b = fb.as_bytes_be();
    let i = 2 * (y * fb.width() as usize + x);
    ((b[i] as u16) << 8) | b[i + 1] as u16
}

#[test]
fn quad_splits_into_four_colours() {
    let mut fb = FrameBuffer::new(4, 2);
    quad(&mut fb);
    let row0: Vec<u16> = (0..4).map(|x| px(&fb, x, 0)).collect();
    let row1: Vec<u16> = (0..4).map(|x| px(&fb, x, 1)).collect();
    assert_eq!(row0, vec![RED, RED, GREEN, GREEN]);
    assert_eq!(row1, vec![BLUE, BLUE, YELLOW, YELLOW]);
}

#[test]
fn quad_odd_sizes_round_down() {
    let mut fb = FrameBuffer::new(3, 3);
    quad(&mut fb);
    assert_eq!(px(&fb, 0, 0), RED);
    assert_eq!(px(&fb, 1, 0), GREEN);
    assert_eq!(px(&fb, 0, 1), BLUE);
    assert_eq!(px(&fb, 2, 2), YELLOW);
}

#[test]
fn color_bars_eight_bands_and_remainder() {
    let mut fb = FrameBuffer::new(2, 17);
    fb.clear(Rgb565(0x1234));
    color_bars(&mut fb);
    let expected = [RED, GREEN, BLUE, WHITE, YELLOW, CYAN, MAGENTA, BLACK];
    for y in 0..16 {
        assert_eq!(px(&fb, 0, y), expected[y / 2]);
        assert_eq!(px(&fb, 1, y), expected[y / 2]);
    }
    assert_eq!(px(&fb, 0, 16), 0x1234);
}

#[test]
fn color_bars_short_frame_uses_one_row_bands() {
    let mut fb = FrameBuffer::new(1, 3);
    color_bars(&mut fb);
    assert_eq!((px(&fb, 0, 0), px(&fb, 0, 1), px(&fb, 0, 2)), (RED, GREEN, BLUE));
}

#[test]
fn debug_map_marks_quadrants_axes_and_corners() {
    let mut fb = FrameBuffer::new(100, 80);
    debug_map(&mut fb);
    assert_eq!(px(&fb, 30, 10), RED);
    assert_eq!(px(&fb, 60, 10), GREEN);
    assert_eq!(px(&fb, 30, 60), BLUE);
    assert_eq!(px(&fb, 60, 60), YELLOW);
    assert_eq!(px(&fb, 50, 5), WHITE);
    assert_eq!(px(&fb, 45, 40), WHITE);
    assert_eq!(px(&fb, 5, 39), BLACK);
    assert_eq!(px(&fb, 10, 10), WHITE);
    assert_eq!(px(&fb, 80, 10), CYAN);
    assert_eq!(px(&fb, 10, 70), MAGENTA);
    assert_eq!(px(&fb, 90, 70), BLACK);
    assert_eq!(px(&fb, 99, 40), WHITE);
    assert_eq!(px(&fb, 40, 79), WHITE);
}

#[test]
fn status_page_is_the_sequence_of_its_draws() {
    let mut fb = FrameBuffer::new(200, 160);
    fb.clear(Rgb565(0x5555));
    status_page_demo(&mut fb);

    let mut expect = FrameBuffer::new(200, 160);
    fill_rect(&mut expect, 0, 0, 200, 160, Rgb565::black());
    draw_rect_outline(&mut expect, 8, 8, 184, 144, Rgb565::white(), 2);
    draw_text_5x7(&mut expect, 20, 20, "RPI LCD", Rgb565::white(), 3, 2);
    draw_text_5x7(&mut expect, 20, 60, "RUST DRIVER", Rgb565::cyan(), 2, 2);
    draw_text_5x7(&mut expect, 20, 90, "SPI OK", Rgb565::green(), 2, 2);
    draw_text_5x7(&mut expect, 20, 115, "MADCTL 48", Rgb565::yellow(), 2, 2);
    draw_text_5x7(&mut expect, 20, 140, "RGB565", Rgb565::magenta(), 2, 2);
    assert_eq!(fb.as_bytes_be(), expect.as_bytes_be());

    assert_eq!(px(&fb, 0, 0), BLACK);
    assert_eq!(px(&fb, 8, 8), WHITE);
    assert_eq!(px(&fb, 9, 100), WHITE);
    assert_eq!(px(&fb, 10, 100), BLACK);
    assert_eq!(px(&fb, 20, 20), WHITE);
}

#[test]
fn xo_has_ring_and_cross() {
    let mut fb = FrameBuffer::new(64, 64);
    xo_center_demo(&mut fb);
    assert_eq!(px(&fb, 0, 0), RED);
    assert_eq!(px(&fb, 63, 0), GREEN);
    assert_eq!(px(&fb, 0, 63), BLUE);
    assert_eq!(px(&fb, 63, 63), YELLOW);
    assert_eq!(px(&fb, 32, 32), BLACK);
    assert_eq!(px(&fb, 46, 32), WHITE);
    assert_eq!(px(&fb, 32, 18), WHITE);
}

