//! The dashboard page: header, a seven-segment clock, daily codes and an info panel.
use vstd::prelude::*;
use crate::canvas::{self, Canvas, Rgb565};
use crate::delta::DeltaPassword;
use crate::framebuffer::{self, FrameBuffer};
use crate::render::primitives::{self, draw_round_rect_filled, draw_text_5x7};
use crate::text;

verus! {

/// Width of a seven-segment digit at the given scale.
pub fn digit_width(scale: i32) -> (r: i32)
    requires
        i32::MIN <= scale * 8 <= i32::MAX,
    ensures
        r == scale * 8,
{
    scale * 8
}

/// Height of a seven-segment digit at the given scale.
pub fn digit_height(scale: i32) -> (r: i32)
    requires
        i32::MIN <= scale * 14 <= i32::MAX,
    ensures
        r == scale * 14,
{
    scale * 14
}

/// The segments lit for a digit, in the order top, middle, bottom, upper left, upper right,
/// lower left, lower right; none for any other character.
pub open spec fn digit_segments(ch: char) -> Seq<bool> {
    if ch == '0' { seq![true, false, true, true, true, true, true] }
    else if ch == '1' { seq![false, false, false, false, true, false, true] }
    else if ch == '2' { seq![true, true, true, false, true, true, false] }
    else if ch == '3' { seq![true, true, true, false, true, false, true] }
    else if ch == '4' { seq![false, true, false, true, true, false, true] }
    else if ch == '5' { seq![true, true, true, true, false, false, true] }
    else if ch == '6' { seq![true, true, true, true, false, true, true] }
    else if ch == '7' { seq![true, false, false, false, true, false, true] }
    else if ch == '8' { seq![true, true, true, true, true, true, true] }
    else if ch == '9' { seq![true, true, true, true, true, false, true] }
    else { seq![false, false, false, false, false, false, false] }
}

/// Segment thickness for an effective scale.
pub open spec fn seg_thickness(s: int) -> int {
    if s / 2 >= 2 { s / 2 } else { 2 }
}

/// Position and size `(x, y, w, h)` of segment `k` of a digit at `(x, y)`, effective scale `s`.
pub open spec fn segment_rect(k: int, x: int, y: int, s: int) -> (int, int, int, int) {
    let t = seg_thickness(s);
    let w = 8 * s;
    let h = 14 * s;
    if k == 0 { (x + t, y, w - 2 * t, t) }
    else if k == 1 { (x + t, y + h / 2 - t / 2, w - 2 * t, t) }
    else if k == 2 { (x + t, y + h - t, w - 2 * t, t) }
    else if k == 3 { (x, y + t, t, h / 2 - t) }
    else if k == 4 { (x + w - t, y + t, t, h / 2 - t) }
    else if k == 5 { (x, y + h / 2, t, h / 2 - t) }
    else { (x + w - t, y + h / 2, t, h / 2 - t) }
}

/// The frame after drawing the first `k` segments of a digit.
pub open spec fn segments_spec(c: Canvas, x: int, y: int, ch: char, color: Rgb565, s: int, k: int) -> Canvas
    decreases k,
{
    if k <= 0 {
        c
    } else {
        let prev = segments_spec(c, x, y, ch, color, s, k - 1);
        if digit_segments(ch)[k - 1] {
            let r = segment_rect(k - 1, x, y, s);
            primitives::round_rect_spec(prev, r.0, r.1, r.2, r.3, seg_thickness(s) / 2, color)
        } else {
            prev
        }
    }
}

/// The frame after `draw_seven_segment_digit`.
pub open spec fn seven_segment_spec(c: Canvas, x: int, y: int, ch: char, color: Rgb565, scale: int) -> Canvas {
    segments_spec(c, x, y, ch, color, primitives::eff_scale(scale), 7)
}

/// `draw_seven_segment_digit` does not overflow on these arguments.
pub open spec fn seven_segment_ok(x: int, y: int, ch: char, scale: int) -> bool {
    let s = primitives::eff_scale(scale);
    &&& 14 * s <= i32::MAX
    &&& x + 8 * s <= i32::MAX
    &&& y + 14 * s <= i32::MAX
    &&& forall|k: int|
        0 <= k < 7 && #[trigger] digit_segments(ch)[k] ==> {
            let r = segment_rect(k, x, y, s);
            primitives::round_rect_ok(r.0, r.1, r.2, r.3, seg_thickness(s) / 2)
        }
}

fn segments_of(ch: char) -> (r: [bool; 7])
    ensures
        r@ == digit_segments(ch),
{
    let r = match ch {
        '0' => [true, false, true, true, true, true, true],
        '1' => [false, false, false, false, true, false, true],
        '2' => [true, true, true, false, true, true, false],
        '3' => [true, true, true, false, true, false, true],
        '4' => [false, true, false, true, true, false, true],
        '5' => [true, true, true, true, false, false, true],
        '6' => [true, true, true, true, false, true, true],
        '7' => [true, false, false, false, true, false, true],
        '8' => [true, true, true, true, true, true, true],
        '9' => [true, true, true, true, true, false, true],
        _ => [false; 7],
    };
    assert(r@ =~= digit_segments(ch));
    r
}

/// Draws a digit as seven rounded segments, `8 * scale` wide and `14 * scale` high (a
/// scale below 1 counts as 1); any other character draws nothing.
pub fn draw_seven_segment_digit(fb: &mut FrameBuffer, x: i32, y: i32, ch: char, color: Rgb565, scale: i32)
    requires
        old(fb)@.wf(),
        seven_segment_ok(x as int, y as int, ch, scale as int),
    ensures
        final(fb)@ == seven_segment_spec(old(fb)@, x as int, y as int, ch, color, scale as int),
        final(fb)@.wf(),
{
    let ghost c0 = fb@;
    let s = if scale >= 1 { scale } else { 1 };
    let t = if s / 2 >= 2 { s / 2 } else { 2 };
    let w = digit_width(s);
    let h = digit_height(s);
    let top = (x + t, y, w - 2 * t, t);
    let mid = (x + t, y + h / 2 - t / 2, w - 2 * t, t);
    let bot = (x + t, y + h - t, w - 2 * t, t);
    let lt = (x, y + t, t, h / 2 - t);
    let rt = (x + w - t, y + t, t, h / 2 - t);
    let lb = (x, y + h / 2, t, h / 2 - t);
    let rb = (x + w - t, y + h / 2, t, h / 2 - t);
    let segs = segments_of(ch);
    let segments = [top, mid, bot, lt, rt, lb, rb];
    let mut k: usize = 0;
    while k < 7
        invariant
            k <= 7,
            fb@.wf(),
            s == primitives::eff_scale(scale as int),
            t == seg_thickness(s as int),
            segs@ == digit_segments(ch),
            seven_segment_ok(x as int, y as int, ch, scale as int),
            forall|j: int| 0 <= j < 7 ==> {
                let r = segment_rect(j, x as int, y as int, s as int);
                #[trigger] segments@[j] == (r.0 as i32, r.1 as i32, r.2 as i32, r.3 as i32)
                    && r.0 == r.0 as i32 && r.1 == r.1 as i32 && r.2 == r.2 as i32 && r.3 == r.3 as i32
            },
            fb@ == segments_spec(c0, x as int, y as int, ch, color, s as int, k as int),
        decreases 7 - k,
    {
        if segs[k] {
            let (sx, sy, sw, sh) = segments[k];
            proof {
                assert(digit_segments(ch)[k as int]);
            }
            draw_round_rect_filled(fb, sx, sy, sw, sh, t / 2, color);
        }
        k = k + 1;
    }
}

} // verus!

verus! {

/// The frame after `draw_colon`: two rounded dots, one above the other.
pub open spec fn colon_spec(c: Canvas, x: int, y: int, color: Rgb565, scale: int) -> Canvas {
    let s = primitives::eff_scale(scale);
    let size = s + 1;
    let c1 = primitives::round_rect_spec(c, x, y + s * 2, size, size, size / 2, color);
    primitives::round_rect_spec(c1, x, y + s * 7, size, size, size / 2, color)
}

/// `draw_colon` does not overflow on these arguments.
pub open spec fn colon_ok(x: int, y: int, scale: int) -> bool {
    let s = primitives::eff_scale(scale);
    &&& s * 7 <= i32::MAX
    &&& y + s * 7 + s + 1 <= i32::MAX
    &&& x + s + 1 <= i32::MAX
    &&& 2 * ((s + 1) / 2) * ((s + 1) / 2) <= i32::MAX
}

/// Draws a clock colon as two small rounded squares.
pub fn draw_colon(fb: &mut FrameBuffer, x: i32, y: i32, color: Rgb565, scale: i32)
    requires
        old(fb)@.wf(),
        colon_ok(x as int, y as int, scale as int),
    ensures
        final(fb)@ == colon_spec(old(fb)@, x as int, y as int, color, scale as int),
        final(fb)@.wf(),
{
    let s = if scale >= 1 { scale } else { 1 };
    let size = s + 1;
    proof {
        assert(primitives::round_radius(size as int, size as int, size / 2) == size / 2);
    }
    draw_round_rect_filled(fb, x, y + s * 2, size, size, size / 2, color);
    draw_round_rect_filled(fb, x, y + s * 7, size, size, size / 2, color);
}

/// The frame after `draw_big_digits`: digits as seven-segment glyphs advancing by
/// `digit_width(scale) + spacing`, colons advancing by `colon_gap`, other characters skipped.
pub open spec fn big_digits_spec(
    c: Canvas,
    x: int,
    y: int,
    chars: Seq<char>,
    color: Rgb565,
    scale: int,
    spacing: int,
    colon_gap: int,
) -> Canvas
    decreases chars.len(),
{
    if chars.len() == 0 {
        c
    } else {
        let ch = chars[0];
        let rest = chars.drop_first();
        if '0' <= ch && ch <= '9' {
            big_digits_spec(
                seven_segment_spec(c, x, y, ch, color, scale),
                x + scale * 8 + spacing,
                y,
                rest,
                color,
                scale,
                spacing,
                colon_gap,
            )
        } else if ch == ':' {
            big_digits_spec(colon_spec(c, x, y + scale * 2, color, scale), x + colon_gap, y, rest, color, scale, spacing, colon_gap)
        } else {
            big_digits_spec(c, x, y, rest, color, scale, spacing, colon_gap)
        }
    }
}

/// `draw_big_digits` does not overflow on these arguments.
pub open spec fn big_digits_ok(x: int, y: int, chars: Seq<char>, scale: int, spacing: int, colon_gap: int) -> bool
    decreases chars.len(),
{
    if chars.len() == 0 {
        true
    } else {
        let ch = chars[0];
        let rest = chars.drop_first();
        if '0' <= ch && ch <= '9' {
            &&& seven_segment_ok(x, y, ch, scale)
            &&& i32::MIN <= scale * 8 <= i32::MAX
            &&& i32::MIN <= x + scale * 8 <= i32::MAX
            &&& i32::MIN <= x + scale * 8 + spacing <= i32::MAX
            &&& big_digits_ok(x + scale * 8 + spacing, y, rest, scale, spacing, colon_gap)
        } else if ch == ':' {
            &&& i32::MIN <= scale * 2 <= i32::MAX
            &&& i32::MIN <= y + scale * 2 <= i32::MAX
            &&& colon_ok(x, y + scale * 2, scale)
            &&& i32::MIN <= x + colon_gap <= i32::MAX
            &&& big_digits_ok(x + colon_gap, y, rest, scale, spacing, colon_gap)
        } else {
            big_digits_ok(x, y, rest, scale, spacing, colon_gap)
        }
    }
}

/// Draws the digits and colons of `text` as a large seven-segment clock.
pub fn draw_big_digits(
    fb: &mut FrameBuffer,
    x: i32,
    y: i32,
    text: &str,
    color: Rgb565,
    scale: i32,
    spacing: i32,
    colon_gap: i32,
)
    requires
        old(fb)@.wf(),
        big_digits_ok(x as int, y as int, text@, scale as int, spacing as int, colon_gap as int),
    ensures
        final(fb)@ == big_digits_spec(old(fb)@, x as int, y as int, text@, color, scale as int, spacing as int, colon_gap as int),
        final(fb)@.wf(),
{
    broadcast use vstd::string::group_string_axioms;

    let ghost c0 = fb@;
    let ghost full = text@;
    let mut cursor = x;
    proof {
        assert(full.skip(0) =~= full);
    }
    for ch in it: text.chars()
        invariant
            fb@.wf(),
            full == text@,
            it.seq() == full,
            big_digits_spec(c0, x as int, y as int, full, color, scale as int, spacing as int, colon_gap as int)
                == big_digits_spec(fb@, cursor as int, y as int, full.skip(it.index()), color, scale as int, spacing as int, colon_gap as int),
            big_digits_ok(cursor as int, y as int, full.skip(it.index()), scale as int, spacing as int, colon_gap as int),
    {
        proof {
            let rest = full.skip(it.index());
            assert(rest[0] == ch);
            assert(rest.drop_first() =~= full.skip(it.index() + 1));
        }
        if '0' <= ch && ch <= '9' {
            draw_seven_segment_digit(fb, cursor, y, ch, color, scale);
            cursor = cursor + digit_width(scale) + spacing;
        } else if ch == ':' {
            draw_colon(fb, cursor, y + scale * 2, color, scale);
            cursor = cursor + colon_gap;
        }
    }
    proof {
        assert(full.skip(full.len() as int) =~= Seq::<char>::empty());
    }
}

} // verus!

verus! {

/// The frame after `draw_chip`: a pill-shaped badge with a label.
pub open spec fn chip_spec(c: Canvas, x: int, y: int, w: int, h: int, bg: Rgb565, text: Seq<char>, fg: Rgb565) -> Canvas {
    let c1 = primitives::round_rect_spec(c, x, y, w, h, h / 2, bg);
    primitives::text_spec(c1, ((x + 12) as u16) as int, ((y + 7) as u16) as int, text, fg, 1, 1)
}

/// `draw_chip` does not overflow on these arguments.
pub open spec fn chip_ok(x: int, y: int, w: int, h: int, text: Seq<char>) -> bool {
    &&& primitives::round_rect_ok(x, y, w, h, h / 2)
    &&& x + 12 <= i32::MAX
    &&& y + 7 <= i32::MAX
    &&& primitives::text_fits(((x + 12) as u16) as int, ((y + 7) as u16) as int, text, 1, 1)
}

/// Draws a pill-shaped badge with a label.
pub fn draw_chip(fb: &mut FrameBuffer, x: i32, y: i32, w: i32, h: i32, bg: Rgb565, text: &str, fg: Rgb565)
    requires
        old(fb)@.wf(),
        chip_ok(x as int, y as int, w as int, h as int, text@),
    ensures
        final(fb)@ == chip_spec(old(fb)@, x as int, y as int, w as int, h as int, bg, text@, fg),
        final(fb)@.wf(),
{
    let ghost c0 = fb@;
    let r = h / 2;
    proof {
        assert(primitives::round_rect_ok(x as int, y as int, w as int, h as int, r as int));
        assert(primitives::round_rect_spec(c0, x as int, y as int, w as int, h as int, r as int, bg)
            == primitives::round_rect_spec(c0, x as int, y as int, w as int, h as int, h / 2, bg));
    }
    draw_round_rect_filled(fb, x, y, w, h, r, bg);
    draw_text_5x7(fb, (x + 12) as u16, (y + 7) as u16, text, fg, 1, 1);
}

/// The frame after `draw_password_row_480`: a row with the location on the left and the
/// code in a blue badge on the right.
pub open spec fn password_row_spec(c: Canvas, x: int, y: int, w: int, location: Seq<char>, password: Seq<char>) -> Canvas {
    let c1 = primitives::round_rect_spec(c, x, y, w, 14, 6, primitives::rgb565_spec(36, 37, 44));
    let c2 = primitives::text_spec(c1, ((x + 8) as u16) as int, ((y + 4) as u16) as int, location, primitives::rgb565_spec(224, 224, 230), 1, 1);
    let c3 = primitives::round_rect_spec(c2, x + w - 50 - 4, y + 1, 50, 12, 5, primitives::rgb565_spec(0, 113, 227));
    primitives::text_spec(c3, ((x + w - 50 + 8) as u16) as int, ((y + 4) as u16) as int, password, Rgb565(0xFFFF), 1, 1)
}

/// `draw_password_row_480` does not overflow on these arguments.
pub open spec fn password_row_ok(x: int, y: int, w: int, location: Seq<char>, password: Seq<char>) -> bool {
    &&& i32::MIN <= x + w - 54
    &&& x + w + 8 <= i32::MAX
    &&& x + 8 <= i32::MAX
    &&& y + 14 <= i32::MAX
    &&& primitives::round_rect_ok(x, y, w, 14, 6)
    &&& primitives::text_fits(((x + 8) as u16) as int, ((y + 4) as u16) as int, location, 1, 1)
    &&& primitives::text_fits(((x + w - 50 + 8) as u16) as int, ((y + 4) as u16) as int, password, 1, 1)
}

/// Draws one row of the daily-code list.
pub fn draw_password_row_480(fb: &mut FrameBuffer, x: i32, y: i32, w: i32, location: &str, password: &str)
    requires
        old(fb)@.wf(),
        password_row_ok(x as int, y as int, w as int, location@, password@),
    ensures
        final(fb)@ == password_row_spec(old(fb)@, x as int, y as int, w as int, location@, password@),
        final(fb)@.wf(),
{
    draw_round_rect_filled(fb, x, y, w, 14, 6, primitives::rgb565(36, 37, 44));
    proof {
        primitives::lemma_round_rect_ok(x + w - 54, y + 1, 50, 12, 5);
    }
    draw_text_5x7(fb, (x + 8) as u16, (y + 4) as u16, location, primitives::rgb565(224, 224, 230), 1, 1);
    let code_w: i32 = 50;
    draw_round_rect_filled(fb, x + w - code_w - 4, y + 1, code_w, 12, 5, primitives::rgb565(0, 113, 227));
    draw_text_5x7(fb, (x + w - code_w + 8) as u16, (y + 4) as u16, password, Rgb565::white(), 1, 1);
}

/// Where `draw_stat_block` puts its value: right-aligned by the value's UTF-8 length,
/// but no further left than 52 pixels into the block.
pub open spec fn stat_value_x(x: int, w: int, value: Seq<char>) -> int {
    let vx = x + w - (((vstd::utf8::encode_utf8(value).len() as usize) as i32) as int) * 11 - 8;
    primitives::max_int(vx, x + 52)
}

/// The frame after `draw_stat_block`: a block with an accent bar, a label and a value.
pub open spec fn stat_spec(c: Canvas, x: int, y: int, w: int, h: int, label: Seq<char>, value: Seq<char>, accent: Rgb565) -> Canvas {
    let c1 = primitives::round_rect_spec(c, x, y, w, h, 6, primitives::rgb565_spec(36, 37, 44));
    let c2 = primitives::round_rect_spec(c1, x + 4, y + 4, 6, h - 8, 3, accent);
    let c3 = primitives::text_spec(c2, ((x + 16) as u16) as int, ((y + 4) as u16) as int, label, primitives::rgb565_spec(150, 150, 160), 1, 1);
    primitives::text_spec(c3, (stat_value_x(x, w, value) as u16) as int, ((y + 4) as u16) as int, value, Rgb565(0xFFFF), 1, 1)
}

/// `draw_stat_block` does not overflow on these arguments.
pub open spec fn stat_ok(x: int, y: int, w: int, h: int, label: Seq<char>, value: Seq<char>) -> bool {
    let n = ((vstd::utf8::encode_utf8(value).len() as usize) as i32) as int;
    &&& i32::MIN <= h - 8
    &&& x + 52 <= i32::MAX
    &&& y + 4 <= i32::MAX
    &&& i32::MIN <= n * 11 <= i32::MAX
    &&& i32::MIN <= x + w <= i32::MAX
    &&& i32::MIN <= x + w - n * 11 <= i32::MAX
    &&& i32::MIN <= x + w - n * 11 - 8 <= i32::MAX
    &&& primitives::round_rect_ok(x, y, w, h, 6)
    &&& primitives::round_rect_ok(x + 4, y + 4, 6, h - 8, 3)
    &&& primitives::text_fits(((x + 16) as u16) as int, ((y + 4) as u16) as int, label, 1, 1)
    &&& primitives::text_fits((stat_value_x(x, w, value) as u16) as int, ((y + 4) as u16) as int, value, 1, 1)
}

/// Draws one block of the info panel.
pub fn draw_stat_block(fb: &mut FrameBuffer, x: i32, y: i32, w: i32, h: i32, label: &str, value: &str, accent: Rgb565)
    requires
        old(fb)@.wf(),
        stat_ok(x as int, y as int, w as int, h as int, label@, value@),
    ensures
        final(fb)@ == stat_spec(old(fb)@, x as int, y as int, w as int, h as int, label@, value@, accent),
        final(fb)@.wf(),
{
    draw_round_rect_filled(fb, x, y, w, h, 6, primitives::rgb565(36, 37, 44));
    draw_round_rect_filled(fb, x + 4, y + 4, 6, h - 8, 3, accent);
    draw_text_5x7(fb, (x + 16) as u16, (y + 4) as u16, label, primitives::rgb565(150, 150, 160), 1, 1);
    let value_x = x + w - (value.len() as i32 * 11) - 8;
    let left = x + 52;
    let vx = if value_x >= left { value_x } else { left };
    draw_text_5x7(fb, vx as u16, (y + 4) as u16, value, Rgb565::white(), 1, 1);
}

} // verus!

verus! {

/// Greeting for the hour of the day.
pub open spec fn period_text(hour: u32) -> Seq<char> {
    if hour <= 5 { "LATE NIGHT"@ }
    else if hour <= 10 { "GOOD MORNING"@ }
    else if hour <= 13 { "NOON MODE"@ }
    else if hour <= 17 { "AFTERNOON"@ }
    else { "EVENING"@ }
}

/// Mode name for the hour of the day.
pub open spec fn mode_text(hour: u32) -> Seq<char> {
    if hour <= 5 { "SLEEP"@ }
    else if hour <= 10 { "FOCUS"@ }
    else if hour <= 13 { "RESET"@ }
    else if hour <= 17 { "BUILD"@ }
    else { "UNWIND"@ }
}

/// Three-letter name of an ISO weekday (1 is Monday); Monday for any other number.
pub open spec fn weekday_text(weekday: u32) -> Seq<char> {
    if weekday == 2 { "TUE"@ }
    else if weekday == 3 { "WED"@ }
    else if weekday == 4 { "THU"@ }
    else if weekday == 5 { "FRI"@ }
    else if weekday == 6 { "SAT"@ }
    else if weekday == 7 { "SUN"@ }
    else { "MON"@ }
}

/// A percentage of the day, capped at 100, followed by `%`.
pub open spec fn pct_text(pct: u32) -> Seq<char> {
    text::decimal(framebuffer::min_int(pct as int, 100) as nat) + "%"@
}

/// The greeting for the hour: late night to 5, good morning to 10, noon mode to 13,
/// afternoon to 17, evening after.
pub fn time_period_label(hour: u32) -> (s: String)
    ensures
        s@ == period_text(hour),
{
    if hour <= 5 {
        "LATE NIGHT".to_owned()
    } else if hour <= 10 {
        "GOOD MORNING".to_owned()
    } else if hour <= 13 {
        "NOON MODE".to_owned()
    } else if hour <= 17 {
        "AFTERNOON".to_owned()
    } else {
        "EVENING".to_owned()
    }
}

/// The mode name for the hour: sleep to 5, focus to 10, reset to 13, build to 17, unwind after.
pub fn mode_label(hour: u32) -> (s: String)
    ensures
        s@ == mode_text(hour),
{
    if hour <= 5 {
        "SLEEP".to_owned()
    } else if hour <= 10 {
        "FOCUS".to_owned()
    } else if hour <= 13 {
        "RESET".to_owned()
    } else if hour <= 17 {
        "BUILD".to_owned()
    } else {
        "UNWIND".to_owned()
    }
}

/// The three-letter name of an ISO weekday number.
pub fn weekday_short(weekday: u32) -> (s: String)
    ensures
        s@ == weekday_text(weekday),
{
    match weekday {
        1 => "MON".to_owned(),
        2 => "TUE".to_owned(),
        3 => "WED".to_owned(),
        4 => "THU".to_owned(),
        5 => "FRI".to_owned(),
        6 => "SAT".to_owned(),
        7 => "SUN".to_owned(),
        _ => "MON".to_owned(),
    }
}

/// The progress through the day as text, for a percentage already rounded: capped at 100
/// and followed by `%`.
pub fn day_progress_pct(pct: u32) -> (s: String)
    ensures
        s@ == pct_text(pct),
{
    let p = if pct < 100 { pct } else { 100 };
    let digits = text::u32_to_decimal(p);
    text::concat_str(digits.as_str(), "%")
}

/// `DAY ` followed by the progress through the day.
pub fn day_progress_label(pct: u32) -> (s: String)
    ensures
        s@ == "DAY "@ + pct_text(pct),
{
    let p = day_progress_pct(pct);
    text::concat_str("DAY ", p.as_str())
}

} // verus!

verus! {

/// What the dashboard shows that comes from outside the drawing code: the clock, the codes
/// and the background rows.
pub struct DashboardInfo {
    /// Hour of the clock, as text.
    pub hh: String,
    /// Minute of the clock, as text.
    pub mm: String,
    /// Hour of the day, 0 to 23.
    pub hour: u32,
    /// ISO weekday, 1 (Monday) to 7.
    pub weekday: u32,
    /// Progress through the day in percent, already rounded.
    pub day_pct: u32,
    /// The daily codes; the first three are shown.
    pub passwords: Vec<DeltaPassword>,
    /// The background colour of each row from the top.
    pub background: Vec<Rgb565>,
}

/// The frame after drawing the first `k` code rows.
pub open spec fn password_rows_spec(c: Canvas, rows: Seq<DeltaPassword>, k: int) -> Canvas
    decreases k,
{
    if k <= 0 {
        c
    } else {
        password_row_spec(
            password_rows_spec(c, rows, k - 1),
            36,
            248 + 16 * (k - 1),
            268,
            rows[k - 1].location@,
            rows[k - 1].password@,
        )
    }
}

/// Number of code rows the dashboard shows.
pub open spec fn shown_rows(n: int) -> int {
    framebuffer::min_int(n, 3)
}

/// The frame after `apple_delta_dashboard_demo`, call by call.
pub open spec fn dashboard_spec(c: Canvas, info: DashboardInfo) -> Canvas {
    let w = c.width as int;
    let h = c.height as int;
    let card = primitives::rgb565_spec(28, 28, 34);
    let dim = primitives::rgb565_spec(150, 150, 160);
    let white = Rgb565(0xFFFF);
    let side_w = w - 324 - 24;
    let c1 = primitives::fill_rows_spec(c, 0, 0, w, info.background@);
    let c2 = primitives::round_rect_spec(c1, 6, 6, w - 12, h - 12, 18, primitives::rgb565_spec(14, 14, 18));
    let c3 = primitives::round_rect_spec(c2, 10, 10, w - 20, h - 20, 16, primitives::rgb565_spec(20, 20, 26));
    let c4 = primitives::round_rect_spec(c3, 24, 24, w - 48, 44, 16, card);
    let c5 = primitives::round_rect_spec(c4, 24, 78, w - 48, 116, 18, card);
    let c6 = primitives::round_rect_spec(c5, 24, 202, 292, 94, 18, card);
    let c7 = primitives::round_rect_spec(c6, 324, 202, side_w, 94, 18, card);
    let c8 = primitives::text_spec(c7, 38, 38, "NINO LCD"@, primitives::rgb565_spec(200, 200, 208), 2, 1);
    let c9 = chip_spec(c8, w - 118, 34, 72, 22, primitives::rgb565_spec(0, 113, 227), "LIVE"@, white);
    let c10 = primitives::text_spec(c9, 38, 90, "TIME"@, dim, 2, 1);
    let c11 = big_digits_spec(c10, 34, 112, info.hh@ + ":"@ + info.mm@, primitives::rgb565_spec(245, 245, 247), 9, 8, 14);
    let c12 = primitives::text_spec(c11, 40, 172, period_text(info.hour), primitives::rgb565_spec(120, 194, 255), 2, 1);
    let c13 = primitives::text_spec(c12, 196, 172, "DAY "@ + pct_text(info.day_pct), primitives::rgb565_spec(186, 186, 196), 2, 1);
    let c14 = primitives::text_spec(c13, 38, 214, "DELTA DAILY"@, white, 2, 1);
    let c15 = primitives::text_spec(c14, 38, 232, "PASSWORD"@, dim, 1, 1);
    let c16 = password_rows_spec(c15, info.passwords@, shown_rows(info.passwords@.len() as int));
    let c17 = primitives::text_spec(c16, 338, 214, "INFO"@, white, 2, 1);
    let c18 = primitives::text_spec(c17, 338, 232, "AMBIENT"@, dim, 1, 1);
    let c19 = stat_spec(c18, 336, 246, side_w - 24, 14, "DAY"@, pct_text(info.day_pct), primitives::rgb565_spec(0, 113, 227));
    let c20 = stat_spec(c19, 336, 263, side_w - 24, 14, "WEEK"@, weekday_text(info.weekday), primitives::rgb565_spec(60, 60, 70));
    stat_spec(c20, 336, 280, side_w - 24, 14, "MODE"@, mode_text(info.hour), primitives::rgb565_spec(60, 60, 70))
}

/// The dashboard can be drawn without overflow: the badge's label, placed 106 pixels left of
/// the right edge (wrapping below zero as a 16-bit position), fits, and the clock text and
/// the shown codes fit where they are drawn.
pub open spec fn dashboard_ok(c: Canvas, info: DashboardInfo) -> bool {
    &&& chip_ok(c.width - 118, 34, 72, 22, "LIVE"@)
    &&& info.background@.len() <= i32::MAX
    &&& big_digits_ok(34, 112, info.hh@ + ":"@ + info.mm@, 9, 8, 14)
    &&& forall|k: int|
        0 <= k < shown_rows(info.passwords@.len() as int) ==> password_row_ok(
            36,
            248 + 16 * k,
            268,
            #[trigger] info.passwords@[k].location@,
            info.passwords@[k].password@,
        )
}

proof fn lemma_decimal_small(n: nat)
    requires
        n <= 100,
    ensures
        text::decimal(n).len() <= 3,
        vstd::utf8::is_ascii_chars(text::decimal(n)),
{
    let d0 = text::decimal(n);
    if n < 10 {
        assert(d0 == seq![text::digit_char(n as int)]);
    } else {
        let d1 = text::decimal(n / 10);
        if n / 10 < 10 {
            assert(d1 == seq![text::digit_char((n / 10) as int)]);
        } else {
            let d2 = text::decimal(n / 100);
            assert(n / 10 / 10 == n / 100);
            assert(d2 == seq![text::digit_char((n / 100) as int)]);
            assert(d1 == d2.push(text::digit_char(((n / 10) % 10) as int)));
        }
        assert(d0 == d1.push(text::digit_char((n % 10) as int)));
    }
}

proof fn lemma_value_texts(pct: u32, weekday: u32, hour: u32)
    ensures
        pct_text(pct).len() <= 4,
        vstd::utf8::is_ascii_chars(pct_text(pct)),
        weekday_text(weekday).len() == 3,
        vstd::utf8::is_ascii_chars(weekday_text(weekday)),
        mode_text(hour).len() <= 6,
        vstd::utf8::is_ascii_chars(mode_text(hour)),
        period_text(hour).len() <= 12,
{
    reveal_strlit("%");
    reveal_strlit("MON");
    reveal_strlit("TUE");
    reveal_strlit("WED");
    reveal_strlit("THU");
    reveal_strlit("FRI");
    reveal_strlit("SAT");
    reveal_strlit("SUN");
    reveal_strlit("SLEEP");
    reveal_strlit("FOCUS");
    reveal_strlit("RESET");
    reveal_strlit("BUILD");
    reveal_strlit("UNWIND");
    reveal_strlit("LATE NIGHT");
    reveal_strlit("GOOD MORNING");
    reveal_strlit("NOON MODE");
    reveal_strlit("AFTERNOON");
    reveal_strlit("EVENING");
    lemma_decimal_small(framebuffer::min_int(pct as int, 100) as nat);
    let d = text::decimal(framebuffer::min_int(pct as int, 100) as nat);
    assert(vstd::utf8::is_ascii_chars(pct_text(pct))) by {
        assert forall|i: int| 0 <= i < pct_text(pct).len() implies '\0' <= #[trigger] pct_text(pct)[i] <= '\u{7f}' by {
            if i < d.len() {
                assert(pct_text(pct)[i] == d[i]);
            } else {
                assert(pct_text(pct)[i] == "%"@[i - d.len()]);
            }
        }
    }
}

proof fn lemma_stat_fits(w: int, label: Seq<char>, value: Seq<char>, y: int)
    requires
        0 <= w <= 0xFFFF,
        value.len() <= 6,
        vstd::utf8::is_ascii_chars(value),
        0 <= y <= 300,
        primitives::text_fits(352, y + 4, label, 1, 1),
    ensures
        stat_ok(336, y, w - 372, 14, label, value),
{
    vstd::utf8::is_ascii_chars_encode_utf8(value);
    let n = value.len() as int;
    assert(((vstd::utf8::encode_utf8(value).len() as usize) as i32) as int == n);
    let vx = stat_value_x(336, w - 372, value);
    assert(vx == primitives::max_int(w - 44 - n * 11, 388));
    assert(primitives::text_step(1, 1) == 6);
    assert(value.len() * primitives::text_step(1, 1) <= 36);
    primitives::lemma_text_fits(vx, y + 4, value, 1, 1);
    assert((vx as u16) as int == vx);
    assert(((y + 4) as u16) as int == y + 4);
    assert(((336 + 16) as u16) as int == 352);
    primitives::lemma_round_rect_ok(336, y, w - 372, 14, 6);
    primitives::lemma_round_rect_ok(340, y + 4, 6, 6, 3);
}

} // verus!

verus! {

/// Draws the dashboard: background rows, cards, the clock, the greeting and day progress,
/// up to three daily codes and the info panel.
pub fn apple_delta_dashboard_demo(fb: &mut FrameBuffer, info: &DashboardInfo)
    requires
        old(fb)@.wf(),
        dashboard_ok(old(fb)@, *info),
    ensures
        final(fb)@ == dashboard_spec(old(fb)@, *info),
        final(fb)@.wf(),
{
    let ghost c0 = fb@;
    let w = fb.width() as i32;
    let h = fb.height() as i32;
    proof {
        reveal_strlit("NINO LCD");
        reveal_strlit("LIVE");
        reveal_strlit("TIME");
        reveal_strlit("DAY ");
        reveal_strlit("DELTA DAILY");
        reveal_strlit("PASSWORD");
        reveal_strlit("INFO");
        reveal_strlit("AMBIENT");
        reveal_strlit("DAY");
        reveal_strlit("WEEK");
        reveal_strlit("MODE");
        lemma_value_texts(info.day_pct, info.weekday, info.hour);
    }

    primitives::fill_rows(fb, 0, 0, w, &info.background);
    proof {
        primitives::lemma_round_rect_ok(6, 6, w - 12, h - 12, 18);
        primitives::lemma_round_rect_ok(10, 10, w - 20, h - 20, 16);
        primitives::lemma_round_rect_ok(24, 24, w - 48, 44, 16);
        primitives::lemma_round_rect_ok(24, 78, w - 48, 116, 18);
        primitives::lemma_round_rect_ok(24, 202, 292, 94, 18);
        primitives::lemma_round_rect_ok(324, 202, w - 348, 94, 18);
    }

    draw_round_rect_filled(fb, 6, 6, w - 12, h - 12, 18, primitives::rgb565(14, 14, 18));
    draw_round_rect_filled(fb, 10, 10, w - 20, h - 20, 16, primitives::rgb565(20, 20, 26));

    let header_x: i32 = 24;
    let header_y: i32 = 24;
    let header_w = w - 48;
    let header_h: i32 = 44;
    let hero_x: i32 = 24;
    let hero_y: i32 = 78;
    let hero_w = w - 48;
    let hero_h: i32 = 116;
    let pass_x: i32 = 24;
    let pass_y: i32 = 202;
    let pass_w: i32 = 292;
    let pass_h: i32 = 94;
    let side_x: i32 = 324;
    let side_y: i32 = 202;
    let side_w = w - side_x - 24;
    let side_h: i32 = 94;

    let card = primitives::rgb565(28, 28, 34);
    draw_round_rect_filled(fb, header_x, header_y, header_w, header_h, 16, card);
    draw_round_rect_filled(fb, hero_x, hero_y, hero_w, hero_h, 18, card);
    draw_round_rect_filled(fb, pass_x, pass_y, pass_w, pass_h, 18, card);
    draw_round_rect_filled(fb, side_x, side_y, side_w, side_h, 18, card);

    proof {
        primitives::lemma_text_fits(38, 38, "NINO LCD"@, 2, 1);
        assert(((34 + 7) as u16) as int == 41);
        primitives::lemma_text_fits(38, 90, "TIME"@, 2, 1);
    }
    draw_text_5x7(fb, 38, 38, "NINO LCD", primitives::rgb565(200, 200, 208), 2, 1);
    draw_chip(fb, w - 118, 34, 72, 22, primitives::rgb565(0, 113, 227), "LIVE", Rgb565::white());

    let dim = primitives::rgb565(150, 150, 160);
    draw_text_5x7(fb, 38, 90, "TIME", dim, 2, 1);
    let hm0 = text::concat_str(info.hh.as_str(), ":");
    let hm = text::concat_str(hm0.as_str(), info.mm.as_str());
    draw_big_digits(fb, 34, 112, hm.as_str(), primitives::rgb565(245, 245, 247), 9, 8, 14);
    let period = time_period_label(info.hour);
    let progress = day_progress_label(info.day_pct);
    proof {
        primitives::lemma_text_fits(40, 172, period@, 2, 1);
        primitives::lemma_text_fits(196, 172, progress@, 2, 1);
        primitives::lemma_text_fits(38, 214, "DELTA DAILY"@, 2, 1);
        primitives::lemma_text_fits(38, 232, "PASSWORD"@, 1, 1);
    }
    draw_text_5x7(fb, 40, 172, period.as_str(), primitives::rgb565(120, 194, 255), 2, 1);
    draw_text_5x7(fb, 196, 172, progress.as_str(), primitives::rgb565(186, 186, 196), 2, 1);

    draw_text_5x7(fb, 38, 214, "DELTA DAILY", Rgb565::white(), 2, 1);
    draw_text_5x7(fb, 38, 232, "PASSWORD", dim, 1, 1);

    let ghost c15 = fb@;
    let n = if info.passwords.len() < 3 { info.passwords.len() } else { 3 };
    let mut i: usize = 0;
    let mut row_y: i32 = 248;
    while i < n
        invariant
            fb@.wf(),
            i <= n,
            n == shown_rows(info.passwords@.len() as int),
            row_y == 248 + 16 * i,
            dashboard_ok(c0, *info),
            fb@ == password_rows_spec(c15, info.passwords@, i as int),
        decreases n - i,
    {
        let item = &info.passwords[i];
        proof {
            assert(password_row_ok(36, 248 + 16 * i, 268, info.passwords@[i as int].location@, info.passwords@[i as int].password@));
        }
        draw_password_row_480(fb, 36, row_y, 268, item.location.as_str(), item.password.as_str());
        row_y = row_y + 16;
        i = i + 1;
    }

    proof {
        primitives::lemma_text_fits(338, 214, "INFO"@, 2, 1);
        primitives::lemma_text_fits(338, 232, "AMBIENT"@, 1, 1);
        primitives::lemma_text_fits(352, 250, "DAY"@, 1, 1);
        primitives::lemma_text_fits(352, 267, "WEEK"@, 1, 1);
        primitives::lemma_text_fits(352, 284, "MODE"@, 1, 1);
    }
    draw_text_5x7(fb, 338, 214, "INFO", Rgb565::white(), 2, 1);
    draw_text_5x7(fb, 338, 232, "AMBIENT", dim, 1, 1);

    let day = day_progress_pct(info.day_pct);
    let week = weekday_short(info.weekday);
    let mode = mode_label(info.hour);
    proof {
        lemma_stat_fits(w as int, "DAY"@, day@, 246);
        lemma_stat_fits(w as int, "WEEK"@, week@, 263);
        lemma_stat_fits(w as int, "MODE"@, mode@, 280);
    }
    draw_stat_block(fb, 336, 246, side_w - 24, 14, "DAY", day.as_str(), primitives::rgb565(0, 113, 227));
    draw_stat_block(fb, 336, 263, side_w - 24, 14, "WEEK", week.as_str(), primitives::rgb565(60, 60, 70));
    draw_stat_block(fb, 336, 280, side_w - 24, 14, "MODE", mode.as_str(), primitives::rgb565(60, 60, 70));
}

} // verus!

verus! {

/// Law: once the background rows cover the frame, what the dashboard draws does not depend
/// on what the frame held before: two frames of one size end up equal.
pub proof fn lemma_dashboard_overwrites(c1: Canvas, c2: Canvas, info: DashboardInfo)
    requires
        c1.wf(),
        c2.wf(),
        c1.width == c2.width,
        c1.height == c2.height,
        c1.height <= 0xFFFF,
        info.background@.len() >= c1.height,
    ensures
        dashboard_spec(c1, info) == dashboard_spec(c2, info),
{
    let w = c1.width as int;
    let bg = info.background@;
    primitives::lemma_fill_rows_agree(c1, c2, bg);
    primitives::lemma_drawing_keeps_size(c1);
    primitives::lemma_drawing_keeps_size(c2);
    let f1 = primitives::fill_rows_spec(c1, 0, 0, w, bg);
    let f2 = primitives::fill_rows_spec(c2, 0, 0, w, bg);
    assert(primitives::same_frame(c1, f1));
    assert(primitives::same_frame(c2, f2));
    assert forall|x: int, y: int| f1.in_bounds(x, y) implies f1.at(x, y) == f2.at(x, y) by {
        assert(c1.in_bounds(x, y));
    }
    canvas::lemma_canvas_ext(f1, f2);
}

} // verus!

verus! {

/// The characters of a clock text that `draw_big_digits` draws: digits and colons, in order.
pub open spec fn clock_chars(s: Seq<char>) -> Seq<char>
    decreases s.len(),
{
    if s.len() == 0 {
        s
    } else if ('0' <= s[0] && s[0] <= '9') || s[0] == ':' {
        seq![s[0]] + clock_chars(s.drop_first())
    } else {
        clock_chars(s.drop_first())
    }
}

/// Law: `draw_big_digits` skips every character other than a digit or a colon, without
/// moving on: the text with those characters removed draws the same frame.
pub proof fn lemma_big_digits_skip_others(
    c: Canvas,
    x: int,
    y: int,
    chars: Seq<char>,
    color: Rgb565,
    scale: int,
    spacing: int,
    colon_gap: int,
)
    ensures
        big_digits_spec(c, x, y, chars, color, scale, spacing, colon_gap) == big_digits_spec(
            c,
            x,
            y,
            clock_chars(chars),
            color,
            scale,
            spacing,
            colon_gap,
        ),
    decreases chars.len(),
{
    if chars.len() > 0 {
        let ch = chars[0];
        let rest = chars.drop_first();
        if '0' <= ch && ch <= '9' {
            let c1 = seven_segment_spec(c, x, y, ch, color, scale);
            lemma_big_digits_skip_others(c1, x + scale * 8 + spacing, y, rest, color, scale, spacing, colon_gap);
            let k = seq![ch] + clock_chars(rest);
            assert(k[0] == ch);
            assert(k.drop_first() =~= clock_chars(rest));
        } else if ch == ':' {
            let c1 = colon_spec(c, x, y + scale * 2, color, scale);
            lemma_big_digits_skip_others(c1, x + colon_gap, y, rest, color, scale, spacing, colon_gap);
            let k = seq![ch] + clock_chars(rest);
            assert(k[0] == ch);
            assert(k.drop_first() =~= clock_chars(rest));
        } else {
            lemma_big_digits_skip_others(c, x, y, rest, color, scale, spacing, colon_gap);
        }
    }
}

/// Law: a clock text of one digit draws exactly that seven-segment digit.
pub proof fn lemma_big_digits_one_digit(
    c: Canvas,
    x: int,
    y: int,
    d: char,
    color: Rgb565,
    scale: int,
    spacing: int,
    colon_gap: int,
)
    requires
        '0' <= d <= '9',
    ensures
        big_digits_spec(c, x, y, seq![d], color, scale, spacing, colon_gap) == seven_segment_spec(
            c,
            x,
            y,
            d,
            color,
            scale,
        ),
{
    let c1 = seven_segment_spec(c, x, y, d, color, scale);
    assert(seq![d].drop_first() =~= Seq::<char>::empty());
    assert(big_digits_spec(c1, x + scale * 8 + spacing, y, Seq::<char>::empty(), color, scale, spacing, colon_gap) == c1);
    assert(seq![d][0] == d);
}

} // verus!

verus! {

/// Whether one of the first `k` lit segments of digit `ch` at `(x, y)`, effective scale `s`,
/// covers pixel `(px, py)` of a `cw` by `chh` grid.
pub open spec fn segment_hit(cw: int, chh: int, x: int, y: int, ch: char, s: int, k: int, px: int, py: int) -> bool {
    exists|j: int|
        0 <= j < k && #[trigger] digit_segments(ch)[j] && {
            let r = segment_rect(j, x, y, s);
            primitives::round_rect_cover(cw, chh, r.0, r.1, r.2, r.3, seg_thickness(s) / 2)(px, py)
        }
}

proof fn lemma_segments_at(c: Canvas, x: int, y: int, ch: char, color: Rgb565, s: int, k: int, px: int, py: int)
    requires
        c.wf(),
        c.in_bounds(px, py),
        0 <= k <= 7,
    ensures
        primitives::same_frame(c, segments_spec(c, x, y, ch, color, s, k)),
        segments_spec(c, x, y, ch, color, s, k).at(px, py) == (if segment_hit(
            c.width as int,
            c.height as int,
            x,
            y,
            ch,
            s,
            k,
            px,
            py,
        ) {
            color
        } else {
            c.at(px, py)
        }),
    decreases k,
{
    if k > 0 {
        lemma_segments_at(c, x, y, ch, color, s, k - 1, px, py);
        let prev = segments_spec(c, x, y, ch, color, s, k - 1);
        let cw = c.width as int;
        let chh = c.height as int;
        let r = segment_rect(k - 1, x, y, s);
        let cov = primitives::round_rect_cover(cw, chh, r.0, r.1, r.2, r.3, seg_thickness(s) / 2)(px, py);
        if digit_segments(ch)[k - 1] {
            primitives::lemma_round_rect_at(prev, r.0, r.1, r.2, r.3, seg_thickness(s) / 2, color, px, py);
            if cov {
                assert(segment_hit(cw, chh, x, y, ch, s, k, px, py));
            }
        }
        if segment_hit(cw, chh, x, y, ch, s, k, px, py) && !segment_hit(cw, chh, x, y, ch, s, k - 1, px, py) {
            let j = choose|j: int|
                0 <= j < k && #[trigger] digit_segments(ch)[j] && {
                    let r = segment_rect(j, x, y, s);
                    primitives::round_rect_cover(cw, chh, r.0, r.1, r.2, r.3, seg_thickness(s) / 2)(px, py)
                };
            assert(j == k - 1);
        }
        if segment_hit(cw, chh, x, y, ch, s, k - 1, px, py) {
            let j = choose|j: int|
                0 <= j < k - 1 && #[trigger] digit_segments(ch)[j] && {
                    let r = segment_rect(j, x, y, s);
                    primitives::round_rect_cover(cw, chh, r.0, r.1, r.2, r.3, seg_thickness(s) / 2)(px, py)
                };
            assert(0 <= j < k && digit_segments(ch)[j]);
        }
    }
}

/// Law: a digit changes only pixels that the digit `8` (all seven segments) paints in its
/// colour, and all of them lie in the digit's box, `8 * scale` wide and `14 * scale` high
/// (a scale below 1 counts as 1), when the box ends within the 16-bit range.
pub proof fn lemma_digit_within_eight(
    c: Canvas,
    x: int,
    y: int,
    d: char,
    color: Rgb565,
    scale: int,
    px: int,
    py: int,
)
    requires
        c.wf(),
        c.in_bounds(px, py),
        x + 8 * primitives::eff_scale(scale) <= 65536,
        y + 14 * primitives::eff_scale(scale) <= 65536,
        seven_segment_spec(c, x, y, d, color, scale).at(px, py) != c.at(px, py),
    ensures
        seven_segment_spec(c, x, y, '8', color, scale).at(px, py) == color,
        x <= px < x + 8 * primitives::eff_scale(scale),
        y <= py < y + 14 * primitives::eff_scale(scale),
{
    let s = primitives::eff_scale(scale);
    let cw = c.width as int;
    let chh = c.height as int;
    lemma_segments_at(c, x, y, d, color, s, 7, px, py);
    lemma_segments_at(c, x, y, '8', color, s, 7, px, py);
    lemma_hit_of_eight(cw, chh, x, y, d, s, px, py);
}

proof fn lemma_hit_of_eight(cw: int, chh: int, x: int, y: int, d: char, s: int, px: int, py: int)
    requires
        s >= 1,
        px >= 0,
        py >= 0,
        x + 8 * s <= 65536,
        y + 14 * s <= 65536,
        segment_hit(cw, chh, x, y, d, s, 7, px, py),
    ensures
        segment_hit(cw, chh, x, y, '8', s, 7, px, py),
        x <= px < x + 8 * s,
        y <= py < y + 14 * s,
{
    let j = choose|j: int|
        0 <= j < 7 && #[trigger] digit_segments(d)[j] && {
            let r = segment_rect(j, x, y, s);
            primitives::round_rect_cover(cw, chh, r.0, r.1, r.2, r.3, seg_thickness(s) / 2)(px, py)
        };
    let r = segment_rect(j, x, y, s);
    let t2 = seg_thickness(s) / 2;
    assert(0 <= j < 7);
    assert(primitives::round_rect_cover(cw, chh, r.0, r.1, r.2, r.3, t2)(px, py));
    assert(digit_segments('8')[j]) by {
        assert(digit_segments('8') =~= seq![true, true, true, true, true, true, true]);
    }
    lemma_segment_in_box(j, x, y, s);
    primitives::lemma_round_rect_inside(cw, chh, r.0, r.1, r.2, r.3, t2, px, py);
}

proof fn lemma_segment_in_box(j: int, x: int, y: int, s: int)
    requires
        0 <= j < 7,
        s >= 1,
    ensures
        ({
            let r = segment_rect(j, x, y, s);
            x <= r.0 && r.0 + r.2 <= x + 8 * s && y <= r.1 && r.1 + r.3 <= y + 14 * s
        }),
{
    let t = seg_thickness(s);
    assert((14 * s) / 2 == 7 * s);
    assert(2 <= t <= 8 * s);
}

} // verus!

verus! {

proof fn lemma_clock_step(x: int, chars: Seq<char>)
    requires
        0 <= x <= i32::MAX,
        chars.len() > 0,
    ensures
        big_digits_ok(x, 112, chars, 9, 8, 14) == (if '0' <= chars[0] && chars[0] <= '9' {
            x + 80 <= i32::MAX && big_digits_ok(x + 80, 112, chars.drop_first(), 9, 8, 14)
        } else if chars[0] == ':' {
            x + 14 <= i32::MAX && big_digits_ok(x + 14, 112, chars.drop_first(), 9, 8, 14)
        } else {
            big_digits_ok(x, 112, chars.drop_first(), 9, 8, 14)
        }),
{
    let ch = chars[0];
    assert(primitives::eff_scale(9) == 9);
    assert(colon_ok(x, 130int, 9) == (x + 10 <= i32::MAX));
    if '0' <= ch && ch <= '9' && x + 72 <= i32::MAX {
        assert(seg_thickness(9) / 2 == 2);
        assert forall|k: int| 0 <= k < 7 && #[trigger] digit_segments(ch)[k] implies {
            let r = segment_rect(k, x, 112, 9);
            primitives::round_rect_ok(r.0, r.1, r.2, r.3, seg_thickness(9) / 2)
        } by {
            lemma_segment_in_box(k, x, 112, 9);
            let r = segment_rect(k, x, 112, 9);
            primitives::lemma_round_rect_ok(r.0, r.1, r.2, r.3, 2);
        }
        assert(seven_segment_ok(x, 112, ch, 9));
    }
}

/// Whether the dashboard's clock text can be drawn where the dashboard draws it (see
/// `big_digits_ok`).
pub fn clock_fits(text: &str) -> (r: bool)
    ensures
        r == big_digits_ok(34, 112, text@, 9, 8, 14),
{
    let v = text::str_chars(text);
    let mut cursor: i64 = 34;
    let mut i: usize = 0;
    proof {
        assert(v@.skip(0) =~= v@);
    }
    while i < v.len()
        invariant
            i <= v@.len(),
            v@ == text@,
            34 <= cursor <= i32::MAX,
            big_digits_ok(34, 112, text@, 9, 8, 14) == big_digits_ok(cursor as int, 112, v@.skip(i as int), 9, 8, 14),
        decreases v@.len() - i,
    {
        let ghost rest = v@.skip(i as int);
        proof {
            assert(rest[0] == v@[i as int]);
            assert(rest.drop_first() =~= v@.skip(i + 1));
            lemma_clock_step(cursor as int, rest);
        }
        let ch = v[i];
        if '0' <= ch && ch <= '9' {
            if cursor + 80 > 0x7FFF_FFFF {
                return false;
            }
            cursor = cursor + 80;
        } else if ch == ':' {
            if cursor + 14 > 0x7FFF_FFFF {
                return false;
            }
            cursor = cursor + 14;
        }
        i = i + 1;
    }
    proof {
        assert(v@.skip(v@.len() as int) =~= Seq::<char>::empty());
    }
    true
}

proof fn lemma_row_ok(k: int, location: Seq<char>, password: Seq<char>)
    requires
        0 <= k < 3,
    ensures
        password_row_ok(36, 248 + 16 * k, 268, location, password) == (primitives::text_fits(
            44,
            252 + 16 * k,
            location,
            1,
            1,
        ) && primitives::text_fits(262, 252 + 16 * k, password, 1, 1)),
{
    primitives::lemma_round_rect_ok(36, 248 + 16 * k, 268, 14, 6);
    assert(((36 + 8) as u16) as int == 44);
    assert(((248 + 16 * k + 4) as u16) as int == 252 + 16 * k);
    assert(((36 + 268 - 50 + 8) as u16) as int == 262);
}

/// Whether the dashboard can be drawn on a frame `width` pixels wide with these inputs (see
/// `dashboard_ok`).
pub fn dashboard_fits(width: u16, info: &DashboardInfo) -> (r: bool)
    ensures
        forall|c: Canvas| c.width == width ==> (r == #[trigger] dashboard_ok(c, *info)),
{
    let lx: u16 = ((width as i32) - 106) as u16;
    proof {
        primitives::lemma_round_rect_ok(width - 118, 34, 72, 22, 11);
        assert(lx as int == ((width - 118 + 12) as u16) as int);
        assert(((34 + 7) as u16) as int == 41);
    }
    let live = primitives::text_fits_at(lx, 41, "LIVE", 1, 1);
    if !live {
        return false;
    }
    if info.background.len() > 0x7FFF_FFFF {
        return false;
    }
    let hm0 = text::concat_str(info.hh.as_str(), ":");
    let hm = text::concat_str(hm0.as_str(), info.mm.as_str());
    if !clock_fits(hm.as_str()) {
        return false;
    }
    let n = if info.passwords.len() < 3 { info.passwords.len() } else { 3 };
    let mut k: usize = 0;
    while k < n
        invariant
            k <= n,
            n == shown_rows(info.passwords@.len() as int),
            forall|j: int|
                0 <= j < k ==> password_row_ok(
                    36,
                    248 + 16 * j,
                    268,
                    #[trigger] info.passwords@[j].location@,
                    info.passwords@[j].password@,
                ),
        decreases n - k,
    {
        let item = &info.passwords[k];
        let y: u16 = 252 + 16 * (k as u16);
        proof {
            lemma_row_ok(k as int, item.location@, item.password@);
        }
        if !primitives::text_fits_at(44, y, item.location.as_str(), 1, 1) {
            return false;
        }
        if !primitives::text_fits_at(262, y, item.password.as_str(), 1, 1) {
            return false;
        }
        k = k + 1;
    }
    true
}

} // verus!

verus! {

/// Whether the standard seven-segment figure of digit `d` lights segment `seg`, the segments
/// named `a` (top), `b` (upper right), `c` (lower right), `d` (bottom), `e` (lower left),
/// `f` (upper left) and `g` (middle).
pub open spec fn standard_lit(d: char, seg: char) -> bool {
    if seg == 'a' {
        d != '1' && d != '4'
    } else if seg == 'b' {
        d != '5' && d != '6'
    } else if seg == 'c' {
        d != '2'
    } else if seg == 'd' {
        d != '1' && d != '4' && d != '7'
    } else if seg == 'e' {
        d == '0' || d == '2' || d == '6' || d == '8'
    } else if seg == 'f' {
        d != '1' && d != '2' && d != '3' && d != '7'
    } else {
        d != '0' && d != '1' && d != '7'
    }
}

/// A pixel in the middle of segment `seg` of a digit at `(x, y)` drawn `8 * s` wide and
/// `14 * s` high: the top, middle and bottom segments at the centre column, the side
/// segments at the outer columns, in the upper or the lower half.
pub open spec fn segment_probe(seg: char, x: int, y: int, s: int) -> (int, int) {
    if seg == 'a' {
        (x + 4 * s, y)
    } else if seg == 'b' {
        (x + 8 * s - 1, y + 4 * s)
    } else if seg == 'c' {
        (x + 8 * s - 1, y + 10 * s)
    } else if seg == 'd' {
        (x + 4 * s, y + 14 * s - 1)
    } else if seg == 'e' {
        (x, y + 10 * s)
    } else if seg == 'f' {
        (x, y + 4 * s)
    } else {
        (x + 4 * s, y + 7 * s)
    }
}

spec fn segment_slot(seg: char) -> int {
    if seg == 'a' {
        0
    } else if seg == 'g' {
        1
    } else if seg == 'd' {
        2
    } else if seg == 'f' {
        3
    } else if seg == 'b' {
        4
    } else if seg == 'e' {
        5
    } else {
        6
    }
}

proof fn lemma_probe_in_slot(seg: char, k: int, x: int, y: int, s: int)
    requires
        'a' <= seg <= 'g',
        0 <= k < 7,
        s >= 1,
    ensures
        ({
            let p = segment_probe(seg, x, y, s);
            let r = segment_rect(k, x, y, s);
            primitives::in_round_rect(r.0, r.1, r.2, r.3, seg_thickness(s) / 2, p.0, p.1) == (k == segment_slot(seg))
        }),
{
    let t = seg_thickness(s);
    assert(2 <= t);
    assert(t <= 2 || t == s / 2);
    assert((14 * s) / 2 == 7 * s);
    assert((t / 2) * 2 <= t);
}

proof fn lemma_table_is_standard(d: char, seg: char)
    requires
        '0' <= d <= '9',
        'a' <= seg <= 'g',
    ensures
        digit_segments(d)[segment_slot(seg)] == standard_lit(d, seg),
{
    if d == '0' {
    } else if d == '1' {
    } else if d == '2' {
    } else if d == '3' {
    } else if d == '4' {
    } else if d == '5' {
    } else if d == '6' {
    } else if d == '7' {
    } else if d == '8' {
    } else {
        assert(d == '9');
    }
}

/// Law: a digit lights exactly the segments of its standard seven-segment figure: the pixel
/// in the middle of segment `seg` takes the colour when `standard_lit(d, seg)` and keeps its
/// colour otherwise, for a digit drawn at a non-negative position whose box ends within the
/// 16-bit range.
pub proof fn lemma_digit_standard_segments(
    c: Canvas,
    x: int,
    y: int,
    d: char,
    color: Rgb565,
    scale: int,
    seg: char,
)
    requires
        c.wf(),
        '0' <= d <= '9',
        'a' <= seg <= 'g',
        x >= 0,
        y >= 0,
        x + 8 * primitives::eff_scale(scale) <= 65536,
        y + 14 * primitives::eff_scale(scale) <= 65536,
        c.in_bounds(
            segment_probe(seg, x, y, primitives::eff_scale(scale)).0,
            segment_probe(seg, x, y, primitives::eff_scale(scale)).1,
        ),
    ensures
        ({
            let p = segment_probe(seg, x, y, primitives::eff_scale(scale));
            seven_segment_spec(c, x, y, d, color, scale).at(p.0, p.1) == (if standard_lit(d, seg) {
                color
            } else {
                c.at(p.0, p.1)
            })
        }),
{
    let s = primitives::eff_scale(scale);
    let p = segment_probe(seg, x, y, s);
    let cw = c.width as int;
    let chh = c.height as int;
    let m = segment_slot(seg);
    lemma_segments_at(c, x, y, d, color, s, 7, p.0, p.1);
    lemma_table_is_standard(d, seg);
    assert forall|k: int| #![trigger segment_rect(k, x, y, s)] 0 <= k < 7 implies ({
        let r = segment_rect(k, x, y, s);
        primitives::round_rect_cover(cw, chh, r.0, r.1, r.2, r.3, seg_thickness(s) / 2)(p.0, p.1) == (k == m)
    }) by {
        let r = segment_rect(k, x, y, s);
        lemma_segment_in_box(k, x, y, s);
        primitives::lemma_round_rect_cover_iff(cw, chh, r.0, r.1, r.2, r.3, seg_thickness(s) / 2, p.0, p.1);
        lemma_probe_in_slot(seg, k, x, y, s);
    }
    if segment_hit(cw, chh, x, y, d, s, 7, p.0, p.1) {
        let j = choose|j: int|
            0 <= j < 7 && #[trigger] digit_segments(d)[j] && {
                let r = segment_rect(j, x, y, s);
                primitives::round_rect_cover(cw, chh, r.0, r.1, r.2, r.3, seg_thickness(s) / 2)(p.0, p.1)
            };
        assert(j == m);
    }
    if digit_segments(d)[m] {
        let r = segment_rect(m, x, y, s);
        assert(primitives::round_rect_cover(cw, chh, r.0, r.1, r.2, r.3, seg_thickness(s) / 2)(p.0, p.1));
        assert(segment_hit(cw, chh, x, y, d, s, 7, p.0, p.1));
    }
}

/// Distinct digits light distinct sets of segments, so every digit drawn by
/// `lemma_digit_standard_segments` can be told from every other.
pub proof fn lemma_standard_digits_distinct(d1: char, d2: char)
    requires
        '0' <= d1 <= '9',
        '0' <= d2 <= '9',
        d1 != d2,
    ensures
        exists|seg: char| 'a' <= seg <= 'g' && standard_lit(d1, seg) != #[trigger] standard_lit(d2, seg),
{
    assert(standard_lit(d1, 'a') != standard_lit(d2, 'a') || standard_lit(d1, 'b') != standard_lit(d2, 'b')
        || standard_lit(d1, 'c') != standard_lit(d2, 'c') || standard_lit(d1, 'd') != standard_lit(d2, 'd')
        || standard_lit(d1, 'e') != standard_lit(d2, 'e') || standard_lit(d1, 'f') != standard_lit(d2, 'f')
        || standard_lit(d1, 'g') != standard_lit(d2, 'g'));
}

} // verus!
