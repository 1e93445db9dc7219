use rpi_lcd_project::bus::{chunk_ranges, write_plan, TransferMode};
use rpi_lcd_project::canvas::Rgb565;
use rpi_lcd_project::framebuffer::{DirtyRegion, FlushOrder, FrameBuffer, PageBuffer, TransferBuffer};
use rpi_lcd_project::panel::{
    cmd_ops, flush_ops, flush_region_ops, flush_transfer_buffer_ops, init_ops, make_transfer_buffer, reset_ops,
    set_window_ops, PanelConfig, PanelOp,
};

fn config(width: u16, height: u16, pixel_format: u8, mode: TransferMode) -> PanelConfig {
    PanelConfig {
        width,
        height,
        madctl: 0x48,
        pixel_format,
        invert: false,
        flush_order: FlushOrder::RowMajor,
        transfer_mode: mode,
        spi_path: "/dev/spidev0.0".to_string(),
        spi_hz: 16_000_000,
        dc_pin: 24,
        rst_pin: 25,
    }
}

fn written(ops: &[PanelOp]) -> Vec<u8> {
    let mut out = Vec::new();
    for op in ops {
        if let PanelOp::Write(v) = op {
            out.extend_from_slice(v);
        }
    }
    out
}

#[test]
fn command_with_parameters() {
    let ops = cmd_ops(0x36, &[0x48]);
    assert_eq!(
        ops,
        vec![PanelOp::DcLow, PanelOp::Write(vec![0x36]), PanelOp::DcHigh, PanelOp::Write(vec![0x48])]
    );
}

#[test]
fn command_without_parameters_stays_in_command_mode() {
    assert_eq!(cmd_ops(0x29, &[]), vec![PanelOp::DcLow, PanelOp::Write(vec![0x29])]);
}

#[test]
fn long_parameters_are_cut_into_4096_byte_writes() {
    let data: Vec<u8> = (0..5000u32).map(|i| (i % 251) as u8).collect();
    let ops = cmd_ops(0x2C, &data);
    assert_eq!(ops.len(), 5);
    assert_eq!(ops[2], PanelOp::DcHigh);
    match (&ops[3], &ops[4]) {
        (PanelOp::Write(a), PanelOp::Write(b)) => {
            assert_eq!(a.len(), 4096);
            assert_eq!(b.len(), 904);
            assert_eq!(&a[..], &data[..4096]);
            assert_eq!(&b[..], &data[4096..]);
        }
        _ => panic!("expected two writes"),
    }
}

#[test]
fn window_bytes_are_big_endian() {
    let ops = set_window_ops(0x0102, 3, 0x01DF, 0x013F);
    assert_eq!(
        ops,
        vec![
            PanelOp::DcLow,
            PanelOp::Write(vec![0x2A]),
            PanelOp::DcHigh,
            PanelOp::Write(vec![0x01, 0x02, 0x01, 0xDF]),
            PanelOp::DcLow,
            PanelOp::Write(vec![0x2B]),
            PanelOp::DcHigh,
            PanelOp::Write(vec![0x00, 0x03, 0x01, 0x3F]),
            PanelOp::DcLow,
            PanelOp::Write(vec![0x2C]),
        ]
    );
}

#[test]
fn reset_pulses_the_line() {
    assert_eq!(
        reset_ops(),
        vec![
            PanelOp::ResetHigh,
            PanelOp::SleepMs(50),
            PanelOp::ResetLow,
            PanelOp::SleepMs(80),
            PanelOp::ResetHigh,
            PanelOp::SleepMs(150),
        ]
    );
}

#[test]
fn init_sequence_registers() {
    let cfg = config(480, 320, 0x55, TransferMode::Blocking);
    let ops = init_ops(&cfg);
    assert_eq!(&ops[..6], &reset_ops()[..]);
    let cmds: Vec<u8> = ops
        .windows(2)
        .filter_map(|w| match (&w[0], &w[1]) {
            (PanelOp::DcLow, PanelOp::Write(v)) => Some(v[0]),
            _ => None,
        })
        .collect();
    assert_eq!(cmds, vec![0x01, 0x11, 0x3A, 0x36, 0xC2, 0xC5, 0xE0, 0xE1, 0x20, 0x29]);
    assert!(ops.contains(&PanelOp::Write(vec![0x55])));
    assert!(ops.contains(&PanelOp::Write(vec![0x48])));
    assert_eq!(ops.last(), Some(&PanelOp::SleepMs(50)));
    assert_eq!(ops.iter().filter(|o| **o == PanelOp::SleepMs(120)).count(), 2);

    let mut inv = cfg.clone();
    inv.invert = true;
    let ops = init_ops(&inv);
    assert!(ops.contains(&PanelOp::Write(vec![0x21])));
    assert!(!ops.contains(&PanelOp::Write(vec![0x20])));
}

#[test]
fn flush_sends_whole_frame_after_window() {
    let cfg = config(3, 2, 0x55, TransferMode::Blocking);
    let mut fb = FrameBuffer::new(3, 2);
    fb.set_pixel(2, 1, Rgb565(0xABCD));
    let ops = flush_ops(&cfg, &fb);
    let mut expect = set_window_ops(0, 0, 2, 1);
    expect.push(PanelOp::DcHigh);
    expect.push(PanelOp::Write(fb.as_bytes_be()));
    assert_eq!(ops, expect);
}

#[test]
fn flush_chunked_splits_pixels() {
    let cfg = config(3, 2, 0x55, TransferMode::Chunked { chunk_size: 5 });
    let mut fb = FrameBuffer::new(3, 2);
    fb.clear(Rgb565(0x1234));
    let tx = make_transfer_buffer(&cfg, &fb);
    assert_eq!(tx.len(), 12);
    let ops = flush_transfer_buffer_ops(&cfg, &tx);
    let window = set_window_ops(0, 0, 2, 1);
    assert_eq!(&ops[..window.len()], &window[..]);
    let tail = &ops[window.len()..];
    assert_eq!(tail[0], PanelOp::DcHigh);
    let sizes: Vec<usize> = tail[1..]
        .iter()
        .map(|o| match o {
            PanelOp::Write(v) => v.len(),
            _ => panic!("expected a write"),
        })
        .collect();
    assert_eq!(sizes, vec![5, 5, 2]);
    assert_eq!(written(&tail[1..]), tx.as_slice().to_vec());
}

#[test]
fn flush_rgb666_uses_three_bytes_per_pixel() {
    let cfg = config(2, 1, 0x66, TransferMode::DmaCandidate);
    let mut fb = FrameBuffer::new(2, 1);
    fb.clear(Rgb565::white());
    let ops = flush_ops(&cfg, &fb);
    assert_eq!(ops.last(), Some(&PanelOp::Write(vec![0xFC; 6])));
}

#[test]
fn flush_empty_transfer_buffer_writes_once() {
    let cfg = config(1, 1, 0x55, TransferMode::Blocking);
    let ops = flush_transfer_buffer_ops(&cfg, &TransferBuffer::new());
    assert_eq!(ops.last(), Some(&PanelOp::Write(vec![])));
}

#[test]
fn region_flush_sends_valid_part_of_page() {
    let mut page = PageBuffer::new(4, 2);
    page.clear(Rgb565(0x0102));
    let region = DirtyRegion { x: 10, y: 20, width: 3, height: 2 };
    let ops = flush_region_ops(region, &page);
    let mut expect = set_window_ops(10, 20, 12, 21);
    expect.push(PanelOp::DcHigh);
    expect.push(PanelOp::Write(page.as_bytes_be()[..12].to_vec()));
    assert_eq!(ops, expect);
}

#[test]
fn region_flush_empty_region() {
    let page = PageBuffer::new(2, 2);
    let region = DirtyRegion { x: 5, y: 6, width: 0, height: 0 };
    let ops = flush_region_ops(region, &page);
    let mut expect = set_window_ops(5, 6, 5, 6);
    expect.push(PanelOp::DcHigh);
    assert_eq!(ops, expect);
}

#[test]
fn chunk_ranges_cover_buffer() {
    assert_eq!(chunk_ranges(10, 4), vec![(0, 4), (4, 8), (8, 10)]);
    assert_eq!(chunk_ranges(8, 4), vec![(0, 4), (4, 8)]);
    assert_eq!(chunk_ranges(0, 4), vec![]);
}

#[test]
fn write_plan_by_mode() {
    assert_eq!(write_plan(10, TransferMode::Blocking), vec![(0, 10)]);
    assert_eq!(write_plan(10, TransferMode::DmaCandidate), vec![(0, 10)]);
    assert_eq!(write_plan(0, TransferMode::Blocking), vec![(0, 0)]);
    assert_eq!(write_plan(5, TransferMode::Chunked { chunk_size: 2 }), vec![(0, 2), (2, 4), (4, 5)]);
    assert_eq!(write_plan(3, TransferMode::Chunked { chunk_size: 0 }), vec![(0, 1), (1, 2), (2, 3)]);
}
