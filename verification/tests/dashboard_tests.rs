use rpi_lcd_project::canvas::Rgb565;
use rpi_lcd_project::delta::fallback_passwords;
use rpi_lcd_project::framebuffer::FrameBuffer;
use rpi_lcd_project::render::dashboard::{
    apple_delta_dashboard_demo, day_progress_label, day_progress_pct, digit_height, digit_width, draw_big_digits,
    draw_chip, draw_colon, draw_password_row_480, draw_seven_segment_digit, draw_stat_block, mode_label,
    time_period_label, weekday_short, DashboardInfo,
};
use rpi_lcd_project::render::dashboard::{clock_fits, dashboard_fits};
use rpi_lcd_project::render::primitives::{char_fits_at, draw_round_rect_filled, draw_text_5x7, rgb565, text_fits_at};

fn px(fb: &FrameBuffer, x: usize, y: usize) -> u16 {
    let b = fb.as_bytes_be();
    let i = 2 * (y * fb.width() as usize + x);
    ((b[i] as u16) << 8) | b[i + 1] as u16
}

const ON: u16 = 0xFFFF;

#[test]
fn digit_size_scales() {
    assert_eq!(digit_width(9), 72);
    assert_eq!(digit_height(9), 126);
    assert_eq!(digit_width(1), 8);
    assert_eq!(digit_height(0), 0);
}

#[test]
fn period_labels_by_hour() {
    let expect = [
        (0, "LATE NIGHT"),
        (5, "LATE NIGHT"),
        (6, "GOOD MORNING"),
        (10, "GOOD MORNING"),
        (11, "NOON MODE"),
        (13, "NOON MODE"),
        (14, "AFTERNOON"),
        (17, "AFTERNOON"),
        (18, "EVENING"),
        (23, "EVENING"),
    ];
    for (h, s) in expect {
        assert_eq!(time_period_label(h), s);
    }
}

#[test]
fn mode_labels_by_hour() {
    let expect = [(3, "SLEEP"), (7, "FOCUS"), (12, "RESET"), (15, "BUILD"), (22, "UNWIND")];
    for (h, s) in expect {
        assert_eq!(mode_label(h), s);
    }
    assert_eq!(mode_label(5), "SLEEP");
    assert_eq!(mode_label(17), "BUILD");
}

#[test]
fn weekday_names() {
    let names = ["MON", "TUE", "WED", "THU", "FRI", "SAT", "SUN"];
    for (i, n) in names.iter().enumerate() {
        assert_eq!(weekday_short(i as u32 + 1), *n);
    }
    assert_eq!(weekday_short(0), "MON");
    assert_eq!(weekday_short(9), "MON");
}

#[test]
fn day_progress_text() {
    assert_eq!(day_progress_pct(0), "0%");
    assert_eq!(day_progress_pct(37), "37%");
    assert_eq!(day_progress_pct(100), "100%");
    assert_eq!(day_progress_pct(250), "100%");
    assert_eq!(day_progress_label(45), "DAY 45%");
    assert_eq!(day_progress_label(100), "DAY 100%");
}

#[test]
fn seven_segment_one_and_eight() {
    let mut one = FrameBuffer::new(40, 60);
    draw_seven_segment_digit(&mut one, 0, 0, '1', Rgb565::white(), 4);
    assert_eq!(px(&one, 31, 10), ON);
    assert_eq!(px(&one, 31, 40), ON);
    assert_eq!(px(&one, 15, 0), 0);
    assert_eq!(px(&one, 15, 27), 0);
    assert_eq!(px(&one, 0, 10), 0);

    let mut eight = FrameBuffer::new(40, 60);
    draw_seven_segment_digit(&mut eight, 0, 0, '8', Rgb565::white(), 4);
    assert_eq!(px(&eight, 15, 0), ON);
    assert_eq!(px(&eight, 15, 27), ON);
    assert_eq!(px(&eight, 15, 55), ON);
    assert_eq!(px(&eight, 0, 10), ON);
    assert_eq!(px(&eight, 0, 40), ON);

    let mut zero = FrameBuffer::new(40, 60);
    draw_seven_segment_digit(&mut zero, 0, 0, '0', Rgb565::white(), 4);
    assert_eq!(px(&zero, 15, 27), 0);
    assert_eq!(px(&zero, 15, 0), ON);

    let mut other = FrameBuffer::new(40, 60);
    draw_seven_segment_digit(&mut other, 0, 0, 'x', Rgb565::white(), 4);
    assert_eq!(other.as_bytes_be(), vec![0u8; 40 * 60 * 2]);
}

#[test]
fn colon_has_two_dots() {
    let mut fb = FrameBuffer::new(10, 40);
    draw_colon(&mut fb, 0, 0, Rgb565::white(), 4);
    assert_eq!(px(&fb, 2, 10), ON);
    assert_eq!(px(&fb, 2, 30), ON);
    assert_eq!(px(&fb, 2, 20), 0);
    assert_eq!(px(&fb, 2, 2), 0);
}

#[test]
fn big_digits_advance_cursor() {
    let mut fb = FrameBuffer::new(80, 40);
    draw_big_digits(&mut fb, 0, 0, "1:1", Rgb565::white(), 2, 4, 10);
    let mut expect = FrameBuffer::new(80, 40);
    draw_seven_segment_digit(&mut expect, 0, 0, '1', Rgb565::white(), 2);
    draw_colon(&mut expect, 20, 4, Rgb565::white(), 2);
    draw_seven_segment_digit(&mut expect, 30, 0, '1', Rgb565::white(), 2);
    assert_eq!(fb.as_bytes_be(), expect.as_bytes_be());
}

#[test]
fn big_digits_skip_other_characters() {
    let mut fb = FrameBuffer::new(60, 40);
    draw_big_digits(&mut fb, 0, 0, "a8", Rgb565::white(), 2, 4, 10);
    let mut expect = FrameBuffer::new(60, 40);
    draw_seven_segment_digit(&mut expect, 0, 0, '8', Rgb565::white(), 2);
    assert_eq!(fb.as_bytes_be(), expect.as_bytes_be());
}

#[test]
fn chip_is_pill_with_text() {
    let mut fb = FrameBuffer::new(100, 40);
    draw_chip(&mut fb, 10, 5, 72, 22, Rgb565(0x039C), "LIVE", Rgb565::white());
    let mut expect = FrameBuffer::new(100, 40);
    draw_round_rect_filled(&mut expect, 10, 5, 72, 22, 11, Rgb565(0x039C));
    draw_text_5x7(&mut expect, 22, 12, "LIVE", Rgb565::white(), 1, 1);
    assert_eq!(fb.as_bytes_be(), expect.as_bytes_be());
    assert_eq!(px(&fb, 12, 16), 0x039C);
    assert_eq!(px(&fb, 10, 5), 0);
}

#[test]
fn password_row_layout() {
    let mut fb = FrameBuffer::new(320, 30);
    draw_password_row_480(&mut fb, 36, 8, 268, "DAM", "5575");
    let mut expect = FrameBuffer::new(320, 30);
    draw_round_rect_filled(&mut expect, 36, 8, 268, 14, 6, rgb565(36, 37, 44));
    draw_text_5x7(&mut expect, 44, 12, "DAM", rgb565(224, 224, 230), 1, 1);
    draw_round_rect_filled(&mut expect, 250, 9, 50, 12, 5, rgb565(0, 113, 227));
    draw_text_5x7(&mut expect, 262, 12, "5575", Rgb565::white(), 1, 1);
    assert_eq!(fb.as_bytes_be(), expect.as_bytes_be());
}

#[test]
fn stat_block_value_right_aligned_with_floor() {
    let mut fb = FrameBuffer::new(200, 20);
    draw_stat_block(&mut fb, 0, 0, 120, 14, "DAY", "45%", Rgb565(0x039C));
    let mut expect = FrameBuffer::new(200, 20);
    draw_round_rect_filled(&mut expect, 0, 0, 120, 14, 6, rgb565(36, 37, 44));
    draw_round_rect_filled(&mut expect, 4, 4, 6, 6, 3, Rgb565(0x039C));
    draw_text_5x7(&mut expect, 16, 4, "DAY", rgb565(150, 150, 160), 1, 1);
    draw_text_5x7(&mut expect, 79, 4, "45%", Rgb565::white(), 1, 1);
    assert_eq!(fb.as_bytes_be(), expect.as_bytes_be());

    let mut narrow = FrameBuffer::new(200, 20);
    draw_stat_block(&mut narrow, 0, 0, 60, 14, "MODE", "UNWIND", Rgb565(0x39E8));
    let mut expect = FrameBuffer::new(200, 20);
    draw_round_rect_filled(&mut expect, 0, 0, 60, 14, 6, rgb565(36, 37, 44));
    draw_round_rect_filled(&mut expect, 4, 4, 6, 6, 3, Rgb565(0x39E8));
    draw_text_5x7(&mut expect, 16, 4, "MODE", rgb565(150, 150, 160), 1, 1);
    draw_text_5x7(&mut expect, 52, 4, "UNWIND", Rgb565::white(), 1, 1);
    assert_eq!(narrow.as_bytes_be(), expect.as_bytes_be());
}

fn info(passwords: bool) -> DashboardInfo {
    DashboardInfo {
        hh: "10".to_string(),
        mm: "47".to_string(),
        hour: 10,
        weekday: 3,
        day_pct: 45,
        passwords: if passwords { fallback_passwords() } else { Vec::new() },
        background: vec![Rgb565(0x0841); 320],
    }
}

#[test]
fn dashboard_on_480_by_320() {
    let mut fb = FrameBuffer::new(480, 320);
    apple_delta_dashboard_demo(&mut fb, &info(true));
    assert_eq!(px(&fb, 0, 0), 0x0841);
    assert_eq!(px(&fb, 479, 319), 0x0841);
    // LIVE chip
    assert_eq!(px(&fb, 364, 45), 0x039C);
    // first clock digit is '1': right segments lit, no top segment
    assert_eq!(px(&fb, 104, 140), 0xF7BE);
    assert_eq!(px(&fb, 70, 113), 0x18E4);
    // second digit '0' has a top segment
    assert_eq!(px(&fb, 150, 113), 0xF7BE);
    // first code row: row background and code box
    assert_eq!(px(&fb, 40, 255), 0x2125);
    assert_eq!(px(&fb, 255, 255), 0x039C);
}

#[test]
fn dashboard_without_codes_leaves_card_empty() {
    let mut fb = FrameBuffer::new(480, 320);
    apple_delta_dashboard_demo(&mut fb, &info(false));
    assert_eq!(px(&fb, 40, 255), 0x18E4);
    assert_eq!(px(&fb, 255, 255), 0x18E4);
}

#[test]
fn dashboard_shows_at_most_three_codes() {
    let mut fb = FrameBuffer::new(480, 320);
    apple_delta_dashboard_demo(&mut fb, &info(true));
    // rows at 248, 264 and 280; a fourth would start at 296
    assert_eq!(px(&fb, 40, 287), 0x2125);
    assert_eq!(px(&fb, 100, 300), 0x10A3);
}

#[test]
fn dashboard_on_narrow_frame() {
    let mut fb = FrameBuffer::new(60, 40);
    let mut i = info(false);
    i.background = vec![Rgb565(0x0841); 40];
    apple_delta_dashboard_demo(&mut fb, &i);
    assert_eq!(px(&fb, 0, 0), 0x0841);
    assert_eq!(px(&fb, 59, 39), 0x0841);
}

#[test]
fn dashboard_overwrites_previous_frame() {
    let mut a = FrameBuffer::new(480, 320);
    let mut b = FrameBuffer::new(480, 320);
    b.clear(Rgb565(0xABCD));
    b.set_pixel(3, 4, Rgb565(0x1111));
    apple_delta_dashboard_demo(&mut a, &info(true));
    apple_delta_dashboard_demo(&mut b, &info(true));
    assert_eq!(a.as_bytes_be(), b.as_bytes_be());
}

#[test]
fn every_digit_lies_within_eight() {
    let mut eight = FrameBuffer::new(40, 60);
    draw_seven_segment_digit(&mut eight, 3, 2, '8', Rgb565::white(), 4);
    for d in "0123456789".chars() {
        let mut fb = FrameBuffer::new(40, 60);
        draw_seven_segment_digit(&mut fb, 3, 2, d, Rgb565::white(), 4);
        for y in 0..60 {
            for x in 0..40 {
                if px(&fb, x, y) != 0 {
                    assert_eq!(px(&eight, x, y), ON);
                    assert!((3..35).contains(&x) && (2..58).contains(&y));
                }
            }
        }
    }
}

#[test]
fn dashboard_fit_by_width_and_text() {
    assert!(dashboard_fits(480, &info(true)));
    assert!(dashboard_fits(60, &info(true)));
    assert!(dashboard_fits(83, &info(true)));
    assert!(!dashboard_fits(84, &info(true)));
    assert!(!dashboard_fits(105, &info(true)));
    assert!(dashboard_fits(106, &info(true)));
    let mut long = info(true);
    long.passwords[0].password = "1".repeat(20_000);
    assert!(!dashboard_fits(480, &long));
    let mut unshown = info(true);
    unshown.passwords[4].password = "1".repeat(20_000);
    assert!(dashboard_fits(480, &unshown));
    assert!(clock_fits("10:47"));
    assert!(clock_fits(""));
}

#[test]
fn text_fit_checks() {
    assert!(char_fits_at(65531, 0, 'L', 1));
    assert!(!char_fits_at(65532, 0, 'E', 1));
    assert!(char_fits_at(65535, 0, ' ', 1));
    assert!(char_fits_at(65535, 0, '1', 1) == false);
    assert!(text_fits_at(0, 0, "HELLO", 2, 1));
    assert!(!text_fits_at(65500, 0, "HELLO WORLD", 2, 1));
    assert!(text_fits_at(65535, 65535, "", 1, 1));
}
