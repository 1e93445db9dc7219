use rpi_lcd_project::canvas::Rgb565;
use rpi_lcd_project::framebuffer::{DirtyRegion, FlushOrder, FrameBuffer, PageBuffer};

#[test]
fn new_frame_is_black_and_sized() {
    let fb = FrameBuffer::new(4, 3);
    assert_eq!(fb.width(), 4);
    assert_eq!(fb.height(), 3);
    assert_eq!(fb.as_bytes_be(), vec![0u8; 24]);
}

#[test]
fn set_pixel_writes_big_endian_bytes() {
    let mut fb = FrameBuffer::new(2, 2);
    fb.set_pixel(1, 0, Rgb565(0xF81F));
    fb.set_pixel(5, 5, Rgb565::white());
    assert_eq!(fb.as_bytes_be(), vec![0, 0, 0xF8, 0x1F, 0, 0, 0, 0]);
}

#[test]
fn column_major_order_transposes() {
    let mut fb = FrameBuffer::new(2, 2);
    fb.set_pixel(1, 0, Rgb565(0x0102));
    fb.set_pixel(0, 1, Rgb565(0x0304));
    assert_eq!(fb.as_bytes_be_with_order(FlushOrder::ColumnMajor), vec![0, 0, 3, 4, 1, 2, 0, 0]);
}

#[test]
fn rgb666_expands_channels() {
    let mut fb = FrameBuffer::new(1, 1);
    fb.clear(Rgb565::white());
    assert_eq!(fb.as_bytes_666_from_565(), vec![0xFC, 0xFC, 0xFC]);
    fb.clear(Rgb565(0x8410));
    assert_eq!(fb.as_bytes_666_from_565(), vec![0x84, 0x80, 0x84]);
}

#[test]
fn region_copy_clips_and_clears() {
    let mut fb = FrameBuffer::new(3, 2);
    fb.clear(Rgb565(0x1111));
    let mut page = PageBuffer::new(2, 2);
    page.clear(Rgb565(0x2222));
    fb.copy_region_to_page(DirtyRegion { x: 2, y: 1, width: 5, height: 5 }, &mut page);
    assert_eq!(page.as_bytes_be(), vec![0x11, 0x11, 0, 0, 0, 0, 0, 0]);
}

fn px(fb: &FrameBuffer, x: usize, y: usize) -> u16 {
    let b = fb.as_bytes_be();
    let i = 2 * (y * fb.width() as usize + x);
    ((b[i] as u16) << 8) | b[i + 1] as u16
}

#[test]
fn be_bytes_read_back_as_pixels() {
    let mut fb = FrameBuffer::new(3, 2);
    let values = [0x0000u16, 0x1234, 0xFFFF, 0x8001, 0x00FF, 0xFF00];
    for (i, v) in values.iter().enumerate() {
        fb.set_pixel((i % 3) as u16, (i / 3) as u16, Rgb565(*v));
    }
    for (i, v) in values.iter().enumerate() {
        assert_eq!(px(&fb, i % 3, i / 3), *v);
    }
}

#[test]
fn to_be_bytes_is_big_endian() {
    assert_eq!(Rgb565(0xABCD).to_be_bytes(), [0xAB, 0xCD]);
    assert_eq!(Rgb565::red().to_be_bytes(), [0xF8, 0x00]);
}

#[test]
fn named_colours() {
    assert_eq!(Rgb565::black(), Rgb565(0x0000));
    assert_eq!(Rgb565::white(), Rgb565(0xFFFF));
    assert_eq!(Rgb565::green(), Rgb565(0x07E0));
    assert_eq!(Rgb565::blue(), Rgb565(0x001F));
    assert_eq!(Rgb565::yellow(), Rgb565(0xFFE0));
    assert_eq!(Rgb565::cyan(), Rgb565(0x07FF));
    assert_eq!(Rgb565::magenta(), Rgb565(0xF81F));
}

#[test]
fn rgb666_keeps_top_bits_of_each_channel() {
    let mut fb = FrameBuffer::new(1, 1);
    for v in [0x0000u16, 0xF800, 0x07E0, 0x001F, 0x1234, 0xFFFF, 0x8410] {
        fb.clear(Rgb565(v));
        let b = fb.as_bytes_666_from_565();
        assert_eq!((b[0] >> 3) as u16, v >> 11);
        assert_eq!((b[1] >> 2) as u16, (v >> 5) & 0x3F);
        assert_eq!((b[2] >> 3) as u16, v & 0x1F);
    }
}

#[test]
fn rgb666_red_expands_low_bit() {
    let mut fb = FrameBuffer::new(1, 1);
    fb.clear(Rgb565::red());
    assert_eq!(fb.as_bytes_666_from_565(), vec![0xFC, 0x00, 0x00]);
}

#[test]
fn column_major_666_order() {
    let mut fb = FrameBuffer::new(2, 1);
    fb.set_pixel(0, 0, Rgb565::red());
    fb.set_pixel(1, 0, Rgb565::blue());
    assert_eq!(
        fb.as_bytes_666_from_565_with_order(FlushOrder::ColumnMajor),
        vec![0xFC, 0, 0, 0, 0, 0xFC]
    );
    assert_eq!(fb.as_bytes_be_with_order(FlushOrder::RowMajor), fb.as_bytes_be());
}

#[test]
fn transfer_buffer_follows_pixel_format() {
    let mut fb = FrameBuffer::new(2, 1);
    fb.clear(Rgb565::white());
    let tx18 = fb.to_transfer_buffer(0x66, FlushOrder::RowMajor);
    assert_eq!(tx18.len(), 6);
    assert_eq!(tx18.as_slice(), &[0xFC; 6]);
    let tx16 = fb.to_transfer_buffer(0x55, FlushOrder::RowMajor);
    assert_eq!(tx16.as_slice(), &[0xFF; 4]);
    assert!(!tx16.is_empty());
}

#[test]
fn transfer_buffer_constructors() {
    let empty = rpi_lcd_project::framebuffer::TransferBuffer::new();
    assert!(empty.is_empty());
    assert_eq!(empty.len(), 0);
    let tx = rpi_lcd_project::framebuffer::TransferBuffer::from_bytes(vec![1, 2, 3]);
    assert_eq!(tx.as_slice(), &[1, 2, 3]);
    assert_eq!(tx.len(), 3);
}

#[test]
fn page_buffer_basics() {
    let mut page = PageBuffer::new(3, 2);
    assert_eq!(page.width(), 3);
    assert_eq!(page.height(), 2);
    assert_eq!(page.as_bytes_be(), vec![0; 12]);
    page.clear(Rgb565(0x0102));
    assert_eq!(page.as_bytes_be(), vec![1, 2, 1, 2, 1, 2, 1, 2, 1, 2, 1, 2]);
}

#[test]
fn region_copy_takes_band_of_rows() {
    let mut fb = FrameBuffer::new(2, 3);
    fb.set_pixel(0, 1, Rgb565(0x0A0B));
    fb.set_pixel(1, 2, Rgb565(0x0C0D));
    let mut page = PageBuffer::new(2, 2);
    fb.copy_region_to_page(DirtyRegion { x: 0, y: 1, width: 2, height: 2 }, &mut page);
    assert_eq!(page.as_bytes_be(), vec![0x0A, 0x0B, 0, 0, 0, 0, 0x0C, 0x0D]);
}

#[test]
fn region_outside_frame_gives_black_page() {
    let mut fb = FrameBuffer::new(2, 2);
    fb.clear(Rgb565::white());
    let mut page = PageBuffer::new(2, 2);
    page.clear(Rgb565::white());
    fb.copy_region_to_page(DirtyRegion { x: 5, y: 0, width: 2, height: 2 }, &mut page);
    assert_eq!(page.as_bytes_be(), vec![0; 8]);
}

#[test]
fn clear_sets_every_pixel() {
    let mut fb = FrameBuffer::new(3, 3);
    fb.clear(Rgb565(0x5A5A));
    assert!(fb.as_bytes_be().iter().all(|b| *b == 0x5A));
}
