use rpi_lcd_project::canvas::Rgb565;
use rpi_lcd_project::framebuffer::FrameBuffer;
use rpi_lcd_project::render::font5x7::glyph5x7;
use rpi_lcd_project::render::primitives::{
    draw_char_5x7, draw_circle_ring, draw_line, draw_rect_outline, draw_round_rect_filled, draw_text_5x7,
    fill_rect, fill_rect_i32, fill_rows, rgb565, rgb565_to_rgb888, set_pixel_i32, to_ascii_upper,
};

fn px(fb: &FrameBuffer, x: usize, y: usize) -> u16 {
    let b = fb.as_bytes_be();
    let i = 2 * (y * fb.width() as usize + x);
    ((b[i] as u16) << 8) | b[i + 1] as u16
}

fn painted(fb: &FrameBuffer) -> Vec<(usize, usize)> {
    let mut v = Vec::new();
    for y in 0..fb.height() as usize {
        for x in 0..fb.width() as usize {
            if px(fb, x, y) != 0 {
                v.push((x, y));
            }
        }
    }
    v
}

#[test]
fn rgb565_packs_top_bits() {
    assert_eq!(rgb565(255, 255, 255), Rgb565(0xFFFF));
    assert_eq!(rgb565(255, 0, 0), Rgb565(0xF800));
    assert_eq!(rgb565(0, 113, 227), Rgb565(0x039C));
    assert_eq!(rgb565(8, 8, 12), Rgb565(0x0841));
}

#[test]
fn rgb888_roundtrip() {
    for v in [0u16, 0x0841, 0x039C, 0xFFFF, 0x1234, 0xF81F] {
        let (r, g, b) = rgb565_to_rgb888(Rgb565(v));
        assert_eq!(rgb565(r, g, b), Rgb565(v));
    }
    assert_eq!(rgb565_to_rgb888(Rgb565(0xFFFF)), (255, 255, 255));
    assert_eq!(rgb565_to_rgb888(Rgb565(0x0841)), (8, 8, 8));
}

#[test]
fn fill_rect_clips_to_frame() {
    let mut fb = FrameBuffer::new(4, 4);
    fill_rect(&mut fb, 2, 3, 10, 10, Rgb565(1));
    assert_eq!(painted(&fb), vec![(2, 3), (3, 3)]);
}

#[test]
fn fill_rect_saturates_near_u16_max() {
    let mut fb = FrameBuffer::new(4, 4);
    fill_rect(&mut fb, 65535, 0, 10, 1, Rgb565(1));
    assert!(painted(&fb).is_empty());
}

#[test]
fn fill_rect_i32_raises_negative_edges() {
    let mut fb = FrameBuffer::new(4, 4);
    fill_rect_i32(&mut fb, -2, -1, 4, 3, Rgb565(1));
    assert_eq!(painted(&fb), vec![(0, 0), (1, 0), (0, 1), (1, 1)]);
    let mut fb2 = FrameBuffer::new(4, 4);
    fill_rect_i32(&mut fb2, 1, 1, 0, 3, Rgb565(1));
    fill_rect_i32(&mut fb2, 1, 1, 3, -1, Rgb565(1));
    assert!(painted(&fb2).is_empty());
}

#[test]
fn set_pixel_i32_ignores_negative() {
    let mut fb = FrameBuffer::new(2, 2);
    set_pixel_i32(&mut fb, -1, 0, Rgb565(1));
    set_pixel_i32(&mut fb, 0, -1, Rgb565(1));
    assert!(painted(&fb).is_empty());
    set_pixel_i32(&mut fb, 1, 1, Rgb565(1));
    assert_eq!(painted(&fb), vec![(1, 1)]);
    set_pixel_i32(&mut fb, 65536, 0, Rgb565(2));
    assert_eq!(px(&fb, 0, 0), 2);
}

#[test]
fn outline_draws_border_only() {
    let mut fb = FrameBuffer::new(4, 4);
    draw_rect_outline(&mut fb, 0, 0, 4, 4, Rgb565(1), 1);
    assert_eq!(painted(&fb).len(), 12);
    assert_eq!(px(&fb, 1, 1), 0);
    assert_eq!(px(&fb, 2, 2), 0);
}

#[test]
fn fill_rows_one_colour_per_row() {
    let mut fb = FrameBuffer::new(2, 3);
    fill_rows(&mut fb, 0, 1, 2, &vec![Rgb565(5), Rgb565(6), Rgb565(7)]);
    assert_eq!(px(&fb, 0, 0), 0);
    assert_eq!(px(&fb, 1, 1), 5);
    assert_eq!(px(&fb, 0, 2), 6);
}

#[test]
fn glyph_table_lookup() {
    assert_eq!(glyph5x7('A'), Some([0x0E, 0x11, 0x11, 0x1F, 0x11, 0x11, 0x11]));
    assert_eq!(glyph5x7('a'), None);
    assert_eq!(glyph5x7('#'), None);
    assert_eq!(to_ascii_upper('a'), 'A');
    assert_eq!(to_ascii_upper('Z'), 'Z');
    assert_eq!(to_ascii_upper('é'), 'é');
}

#[test]
fn draw_char_follows_glyph_bits() {
    let mut fb = FrameBuffer::new(5, 7);
    draw_char_5x7(&mut fb, 0, 0, 'T', Rgb565(1), 1);
    let expected: Vec<(usize, usize)> = (0..5).map(|x| (x, 0)).chain((1..7).map(|y| (2, y))).collect();
    assert_eq!(painted(&fb), expected);
}

#[test]
fn draw_char_lower_case_and_scale() {
    let mut a = FrameBuffer::new(20, 20);
    let mut b = FrameBuffer::new(20, 20);
    draw_char_5x7(&mut a, 1, 1, 'e', Rgb565(1), 2);
    draw_char_5x7(&mut b, 1, 1, 'E', Rgb565(1), 2);
    assert_eq!(a.as_bytes_be(), b.as_bytes_be());
    assert_eq!(px(&a, 1, 1), 1);
    assert_eq!(px(&a, 2, 2), 1);
    let mut c = FrameBuffer::new(20, 20);
    draw_char_5x7(&mut c, 1, 1, 'E', Rgb565(1), 0);
    assert_eq!(px(&c, 1, 1), 1);
    assert_eq!(px(&c, 6, 1), 0);
}

#[test]
fn unknown_char_draws_nothing() {
    let mut fb = FrameBuffer::new(10, 10);
    draw_char_5x7(&mut fb, 0, 0, '#', Rgb565(1), 1);
    assert!(painted(&fb).is_empty());
}

#[test]
fn text_advances_by_step() {
    let mut fb = FrameBuffer::new(20, 7);
    draw_text_5x7(&mut fb, 0, 0, "II", Rgb565(1), 1, 2);
    assert_eq!(px(&fb, 2, 0), 1);
    assert_eq!(px(&fb, 9, 0), 1);
    assert_eq!(px(&fb, 5, 0), 0);
}

#[test]
fn ring_has_hole() {
    let mut fb = FrameBuffer::new(21, 21);
    draw_circle_ring(&mut fb, 10, 10, 8, 2, Rgb565(1));
    assert_eq!(px(&fb, 10, 10), 0);
    assert_eq!(px(&fb, 18, 10), 1);
    assert_eq!(px(&fb, 10, 2), 1);
    assert_eq!(px(&fb, 15, 10), 0);
    assert_eq!(px(&fb, 0, 0), 0);
}

#[test]
fn ring_clipped_at_negative_coordinates() {
    let mut fb = FrameBuffer::new(5, 5);
    draw_circle_ring(&mut fb, 0, 0, 3, 1, Rgb565(1));
    assert_eq!(px(&fb, 3, 0), 1);
    assert_eq!(px(&fb, 0, 3), 1);
    assert_eq!(px(&fb, 0, 0), 0);
}

#[test]
fn line_diagonal_and_thickness() {
    let mut fb = FrameBuffer::new(5, 5);
    draw_line(&mut fb, 0, 0, 4, 4, Rgb565(1), 1);
    assert_eq!(painted(&fb), vec![(0, 0), (1, 1), (2, 2), (3, 3), (4, 4)]);
    let mut thick = FrameBuffer::new(5, 5);
    draw_line(&mut thick, 2, 2, 2, 2, Rgb565(1), 3);
    assert_eq!(painted(&thick).len(), 9);
    let mut thin = FrameBuffer::new(5, 5);
    draw_line(&mut thin, 2, 2, 2, 2, Rgb565(1), 0);
    assert_eq!(painted(&thin), vec![(2, 2)]);
}

#[test]
fn line_bresenham_shallow() {
    let mut fb = FrameBuffer::new(6, 3);
    draw_line(&mut fb, 0, 0, 5, 2, Rgb565(1), 1);
    assert_eq!(painted(&fb), vec![(0, 0), (1, 0), (2, 1), (3, 1), (4, 2), (5, 2)]);
    let mut back = FrameBuffer::new(6, 3);
    draw_line(&mut back, 5, 2, 0, 0, Rgb565(1), 1);
    assert_eq!(painted(&back).len(), 6);
}

#[test]
fn round_rect_cuts_corners() {
    let mut fb = FrameBuffer::new(10, 10);
    draw_round_rect_filled(&mut fb, 0, 0, 10, 10, 4, Rgb565(1));
    assert_eq!(px(&fb, 0, 0), 0);
    assert_eq!(px(&fb, 9, 9), 0);
    assert_eq!(px(&fb, 5, 5), 1);
    assert_eq!(px(&fb, 0, 5), 1);
    assert_eq!(px(&fb, 5, 0), 1);
    let mut square = FrameBuffer::new(4, 4);
    draw_round_rect_filled(&mut square, 0, 0, 4, 4, 0, Rgb565(1));
    assert_eq!(painted(&square).len(), 16);
    let mut none = FrameBuffer::new(4, 4);
    draw_round_rect_filled(&mut none, 0, 0, 0, 4, 2, Rgb565(1));
    assert!(painted(&none).is_empty());
}

#[test]
fn line_path_has_one_point_per_major_step() {
    for (x1, y1) in [(9i32, 4i32), (2, 11), (-7, 3), (5, -5), (0, 0)] {
        let mut fb = FrameBuffer::new(40, 40);
        draw_line(&mut fb, 20, 20, 20 + x1, 20 + y1, Rgb565::white(), 1);
        let pts = painted(&fb);
        assert_eq!(pts.len() as i32, x1.abs().max(y1.abs()) + 1);
        assert!(pts.contains(&(20, 20)));
        assert!(pts.contains(&((20 + x1) as usize, (20 + y1) as usize)));
    }
}
