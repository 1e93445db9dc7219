use rpi_lcd_project::app::{page_regions, panel_dimensions, render_pattern, Pattern};
use rpi_lcd_project::canvas::Rgb565;
use rpi_lcd_project::framebuffer::{FrameBuffer, PageBuffer};
use rpi_lcd_project::panel::{flush_region_ops, PanelOp};
use rpi_lcd_project::render::patterns::{color_bars, debug_map, quad, status_page_demo, xo_center_demo};

#[test]
fn pattern_names() {
    let named = [
        ("red", Pattern::Red),
        ("green", Pattern::Green),
        ("blue", Pattern::Blue),
        ("white", Pattern::White),
        ("black", Pattern::Black),
        ("bars", Pattern::Bars),
        ("quad", Pattern::Quad),
        ("xo", Pattern::Xo),
        ("status", Pattern::Status),
        ("debugmap", Pattern::DebugMap),
        ("dashboard", Pattern::Dashboard),
    ];
    for (name, p) in named {
        assert_eq!(Pattern::parse(name), p);
    }
}

#[test]
fn unknown_pattern_is_red() {
    assert_eq!(Pattern::parse("purple"), Pattern::Red);
    assert_eq!(Pattern::parse(""), Pattern::Red);
    assert_eq!(Pattern::parse("Quad"), Pattern::Red);
}

#[test]
fn dimensions_swap_for_rotated_madctl() {
    assert_eq!(panel_dimensions(480, 320, 0x88), (320, 480));
    assert_eq!(panel_dimensions(480, 320, 0x48), (480, 320));
    assert_eq!(panel_dimensions(480, 320, 0x28), (480, 320));
}

#[test]
fn solid_patterns_fill_frame() {
    for (p, c) in [
        (Pattern::Red, 0xF800u16),
        (Pattern::Green, 0x07E0),
        (Pattern::Blue, 0x001F),
        (Pattern::White, 0xFFFF),
        (Pattern::Black, 0x0000),
    ] {
        let mut fb = FrameBuffer::new(3, 2);
        fb.clear(Rgb565(0x1234));
        render_pattern(&mut fb, p);
        let hi = (c >> 8) as u8;
        let lo = c as u8;
        assert_eq!(fb.as_bytes_be(), [hi, lo].repeat(6));
    }
}

#[test]
fn drawn_patterns_match_their_functions() {
    let cases: Vec<(Pattern, fn(&mut FrameBuffer))> = vec![
        (Pattern::Bars, color_bars),
        (Pattern::Quad, quad),
        (Pattern::Xo, xo_center_demo),
        (Pattern::Status, status_page_demo),
        (Pattern::DebugMap, debug_map),
    ];
    for (p, f) in cases {
        let mut a = FrameBuffer::new(120, 90);
        let mut b = FrameBuffer::new(120, 90);
        render_pattern(&mut a, p);
        f(&mut b);
        assert_eq!(a.as_bytes_be(), b.as_bytes_be());
    }
}

#[test]
fn page_regions_cut_rows() {
    let r = page_regions(480, 100, 40);
    let bands: Vec<(u16, u16, u16, u16)> = r.iter().map(|d| (d.x, d.y, d.width, d.height)).collect();
    assert_eq!(bands, vec![(0, 0, 480, 40), (0, 40, 480, 40), (0, 80, 480, 20)]);
    assert!(page_regions(480, 0, 40).is_empty());
    assert_eq!(page_regions(10, 3, 1).len(), 3);
}

#[test]
fn paged_flush_sends_the_whole_frame() {
    let mut fb = FrameBuffer::new(5, 7);
    for y in 0..7u16 {
        for x in 0..5u16 {
            fb.set_pixel(x, y, Rgb565(x * 0x101 + y * 0x1F0 + 1));
        }
    }
    let page_height = 3;
    let mut page = PageBuffer::new(5, page_height);
    let mut sent = Vec::new();
    for region in page_regions(5, 7, page_height) {
        fb.copy_region_to_page(region, &mut page);
        let ops = flush_region_ops(region, &page);
        let start = ops.iter().rposition(|op| *op == PanelOp::DcHigh).unwrap() + 1;
        for op in &ops[start..] {
            if let PanelOp::Write(v) = op {
                sent.extend_from_slice(v);
            }
        }
    }
    assert_eq!(sent, fb.as_bytes_be());
}
