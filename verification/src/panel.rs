//! The ILI9486 command protocol: configuration, and the exact sequence of pin changes,
//! delays and SPI writes for initialisation and for flushing pixels.
use vstd::prelude::*;
use crate::bus::{self, TransferMode};
use crate::framebuffer::{self, DirtyRegion, FlushOrder, FrameBuffer, PageBuffer, TransferBuffer};

verus! {

/// Panel geometry, register values and wiring.
#[derive(Debug, Clone)]
pub struct PanelConfig {
    pub width: u16,
    pub height: u16,
    pub madctl: u8,
    pub pixel_format: u8,
    pub invert: bool,
    pub flush_order: FlushOrder,
    pub transfer_mode: TransferMode,
    pub spi_path: String,
    pub spi_hz: u32,
    pub dc_pin: u8,
    pub rst_pin: u8,
}

/// One action on the panel's wires.
#[derive(Clone, Debug, PartialEq, Eq)]
pub enum PanelOp {
    /// Data/command line low: the next bytes are a command.
    DcLow,
    /// Data/command line high: the next bytes are parameters or pixels.
    DcHigh,
    ResetHigh,
    ResetLow,
    SleepMs(u64),
    /// One SPI write of these bytes.
    Write(Vec<u8>),
}

/// The abstract form of a `PanelOp`.
pub enum Step {
    DcLow,
    DcHigh,
    ResetHigh,
    ResetLow,
    SleepMs(nat),
    Write(Seq<u8>),
}

impl View for PanelOp {
    type V = Step;

    open spec fn view(&self) -> Step {
        match self {
            PanelOp::DcLow => Step::DcLow,
            PanelOp::DcHigh => Step::DcHigh,
            PanelOp::ResetHigh => Step::ResetHigh,
            PanelOp::ResetLow => Step::ResetLow,
            PanelOp::SleepMs(ms) => Step::SleepMs(*ms as nat),
            PanelOp::Write(v) => Step::Write(v@),
        }
    }
}

/// The abstract form of a sequence of operations.
pub open spec fn steps(ops: Seq<PanelOp>) -> Seq<Step> {
    ops.map_values(|o: PanelOp| o@)
}

/// Largest single write of command parameters.
pub open spec fn param_chunk() -> int {
    4096
}

/// One write per piece of `data` cut every `size` bytes.
pub open spec fn chunked_writes(data: Seq<u8>, size: int) -> Seq<Step> {
    Seq::new(
        bus::chunk_count(data.len() as int, size) as nat,
        |i: int|
            Step::Write(
                data.subrange(
                    bus::chunk_at(data.len() as int, size, i).0,
                    bus::chunk_at(data.len() as int, size, i).1,
                ),
            ),
    )
}

/// A command: D/C low and the command byte, then, when there are parameters, D/C high and
/// the parameters in writes of at most 4096 bytes.
pub open spec fn command_steps(cmd: u8, data: Seq<u8>) -> Seq<Step> {
    seq![Step::DcLow, Step::Write(seq![cmd])] + if data.len() == 0 {
        Seq::empty()
    } else {
        seq![Step::DcHigh] + chunked_writes(data, param_chunk())
    }
}

/// A 16-bit value as two bytes, most significant first.
pub open spec fn be16(v: u16) -> Seq<u8> {
    seq![(v / 256) as u8, (v % 256) as u8]
}

/// Selects the drawing window `x0..=x1` by `y0..=y1` and starts a memory write.
pub open spec fn window_steps(x0: u16, y0: u16, x1: u16, y1: u16) -> Seq<Step> {
    command_steps(0x2A, be16(x0) + be16(x1)) + command_steps(0x2B, be16(y0) + be16(y1))
        + command_steps(0x2C, Seq::empty())
}

/// The hardware reset pulse.
pub open spec fn reset_steps() -> Seq<Step> {
    seq![Step::ResetHigh, Step::SleepMs(50), Step::ResetLow, Step::SleepMs(80), Step::ResetHigh, Step::SleepMs(150)]
}

/// Positive gamma table.
pub open spec fn gamma_pos() -> Seq<u8> {
    seq![0x0Fu8, 0x1F, 0x1C, 0x0C, 0x0F, 0x08, 0x48, 0x98, 0x37, 0x0A, 0x13, 0x04, 0x11, 0x0D, 0x00]
}

/// Negative gamma table.
pub open spec fn gamma_neg() -> Seq<u8> {
    seq![0x0Fu8, 0x32, 0x2E, 0x0B, 0x0D, 0x05, 0x47, 0x75, 0x37, 0x06, 0x10, 0x03, 0x24, 0x20, 0x00]
}

/// The initialisation sequence: reset, software reset, sleep out, pixel format, memory
/// access control, power and VCOM control, gamma, inversion on or off, display on.
pub open spec fn init_steps(pixel_format: u8, madctl: u8, invert: bool) -> Seq<Step> {
    reset_steps() + command_steps(0x01, Seq::empty()) + seq![Step::SleepMs(120)] + command_steps(0x11, Seq::empty())
        + seq![Step::SleepMs(120)] + command_steps(0x3A, seq![pixel_format]) + command_steps(0x36, seq![madctl])
        + command_steps(0xC2, seq![0x55u8]) + command_steps(0xC5, seq![0u8, 0, 0, 0]) + command_steps(0xE0, gamma_pos())
        + command_steps(0xE1, gamma_neg()) + command_steps(if invert { 0x21u8 } else { 0x20u8 }, Seq::empty())
        + command_steps(0x29, Seq::empty()) + seq![Step::SleepMs(50)]
}

fn push_all(ops: &mut Vec<PanelOp>, more: Vec<PanelOp>)
    ensures
        steps(final(ops)@) == steps(old(ops)@) + steps(more@),
{
    let mut more = more;
    let ghost before = steps(ops@);
    let ghost tail = steps(more@);
    ops.append(&mut more);
    proof {
        assert(steps(ops@) =~= before + tail);
    }
}

/// The bytes `data[start..end]` as a vector.
fn copy_range(data: &[u8], start: usize, end: usize) -> (v: Vec<u8>)
    requires
        start <= end <= data@.len(),
    ensures
        v@ == data@.subrange(start as int, end as int),
{
    let mut v: Vec<u8> = Vec::with_capacity(end - start);
    let mut i = start;
    while i < end
        invariant
            start <= i <= end,
            end <= data@.len(),
            v@ == data@.subrange(start as int, i as int),
        decreases end - i,
    {
        v.push(data[i]);
        i = i + 1;
        proof {
            assert(v@ =~= data@.subrange(start as int, i as int));
        }
    }
    v
}

/// One write per range, each of the bytes of `data` it selects.
fn writes_for(data: &[u8], ranges: &Vec<(usize, usize)>) -> (ops: Vec<PanelOp>)
    requires
        forall|i: int| 0 <= i < ranges@.len() ==> (#[trigger] ranges@[i]).0 <= ranges@[i].1 <= data@.len(),
    ensures
        ops@.len() == ranges@.len(),
        forall|i: int|
            0 <= i < ranges@.len() ==> (#[trigger] ops@[i])@ == Step::Write(
                data@.subrange(ranges@[i].0 as int, ranges@[i].1 as int),
            ),
{
    let mut ops: Vec<PanelOp> = Vec::new();
    let mut i: usize = 0;
    while i < ranges.len()
        invariant
            i <= ranges@.len(),
            ops@.len() == i,
            forall|j: int| 0 <= j < ranges@.len() ==> (#[trigger] ranges@[j]).0 <= ranges@[j].1 <= data@.len(),
            forall|j: int|
                0 <= j < i ==> (#[trigger] ops@[j])@ == Step::Write(
                    data@.subrange(ranges@[j].0 as int, ranges@[j].1 as int),
                ),
        decreases ranges@.len() - i,
    {
        let (a, b) = ranges[i];
        let piece = copy_range(data, a, b);
        ops.push(PanelOp::Write(piece));
        i = i + 1;
    }
    ops
}

/// The writes of `data` in pieces of `size` bytes.
fn chunked_write_ops(data: &[u8], size: usize) -> (ops: Vec<PanelOp>)
    requires
        size >= 1,
    ensures
        steps(ops@) == chunked_writes(data@, size as int),
{
    let ranges = bus::chunk_ranges(data.len(), size);
    let ops = writes_for(data, &ranges);
    assert(steps(ops@) =~= chunked_writes(data@, size as int));
    ops
}

/// The operations that send command `cmd` with parameters `data`.
pub fn cmd_ops(cmd: u8, data: &[u8]) -> (ops: Vec<PanelOp>)
    ensures
        steps(ops@) == command_steps(cmd, data@),
{
    let mut ops: Vec<PanelOp> = Vec::new();
    ops.push(PanelOp::DcLow);
    let mut c: Vec<u8> = Vec::new();
    c.push(cmd);
    ops.push(PanelOp::Write(c));
    proof {
        assert(steps(ops@) =~= seq![Step::DcLow, Step::Write(seq![cmd])]);
    }
    if data.len() != 0 {
        let mut d: Vec<PanelOp> = Vec::new();
        d.push(PanelOp::DcHigh);
        proof {
            assert(steps(d@) =~= seq![Step::DcHigh]);
        }
        push_all(&mut ops, d);
        let w = chunked_write_ops(data, 4096);
        push_all(&mut ops, w);
        proof {
            assert(steps(ops@) =~= command_steps(cmd, data@));
        }
    } else {
        proof {
            assert(steps(ops@) =~= command_steps(cmd, data@));
        }
    }
    ops
}

} // verus!

verus! {

fn single(op: PanelOp) -> (ops: Vec<PanelOp>)
    ensures
        steps(ops@) == seq![op@],
{
    let mut ops: Vec<PanelOp> = Vec::new();
    ops.push(op);
    assert(steps(ops@) =~= seq![op@]);
    ops
}

fn be16_bytes(v: u16) -> (r: (u8, u8))
    ensures
        seq![r.0, r.1] == be16(v),
{
    let hi = (v >> 8) as u8;
    let lo = v as u8;
    assert(hi == (v / 256) as u8 && lo == (v % 256) as u8) by (bit_vector)
        requires
            hi == (v >> 8) as u8,
            lo == v as u8,
    ;
    (hi, lo)
}

/// The operations that select the window `x0..=x1` by `y0..=y1` and start a memory write.
pub fn set_window_ops(x0: u16, y0: u16, x1: u16, y1: u16) -> (ops: Vec<PanelOp>)
    ensures
        steps(ops@) == window_steps(x0, y0, x1, y1),
{
    let (a, b) = be16_bytes(x0);
    let (c, d) = be16_bytes(x1);
    let xs = [a, b, c, d];
    let (e, f) = be16_bytes(y0);
    let (g, h) = be16_bytes(y1);
    let ys = [e, f, g, h];
    proof {
        assert(xs@ =~= be16(x0) + be16(x1));
        assert(ys@ =~= be16(y0) + be16(y1));
    }
    let mut ops = cmd_ops(0x2A, &xs);
    push_all(&mut ops, cmd_ops(0x2B, &ys));
    let empty: [u8; 0] = [];
    proof {
        assert(empty@ =~= Seq::<u8>::empty());
    }
    push_all(&mut ops, cmd_ops(0x2C, &empty));
    ops
}

/// The reset pulse.
pub fn reset_ops() -> (ops: Vec<PanelOp>)
    ensures
        steps(ops@) == reset_steps(),
{
    let mut ops: Vec<PanelOp> = Vec::new();
    ops.push(PanelOp::ResetHigh);
    ops.push(PanelOp::SleepMs(50));
    ops.push(PanelOp::ResetLow);
    ops.push(PanelOp::SleepMs(80));
    ops.push(PanelOp::ResetHigh);
    ops.push(PanelOp::SleepMs(150));
    assert(steps(ops@) =~= reset_steps());
    ops
}

/// The initialisation sequence for a configuration.
pub fn init_ops(cfg: &PanelConfig) -> (ops: Vec<PanelOp>)
    ensures
        steps(ops@) == init_steps(cfg.pixel_format, cfg.madctl, cfg.invert),
{
    let empty: [u8; 0] = [];
    proof {
        assert(empty@ =~= Seq::<u8>::empty());
    }
    let mut ops = reset_ops();
    push_all(&mut ops, cmd_ops(0x01, &empty));
    push_all(&mut ops, single(PanelOp::SleepMs(120)));
    push_all(&mut ops, cmd_ops(0x11, &empty));
    push_all(&mut ops, single(PanelOp::SleepMs(120)));
    let pf = [cfg.pixel_format];
    push_all(&mut ops, cmd_ops(0x3A, &pf));
    let md = [cfg.madctl];
    push_all(&mut ops, cmd_ops(0x36, &md));
    let pc = [0x55u8];
    push_all(&mut ops, cmd_ops(0xC2, &pc));
    let vc = [0x00u8, 0x00, 0x00, 0x00];
    push_all(&mut ops, cmd_ops(0xC5, &vc));
    let gp = [0x0Fu8, 0x1F, 0x1C, 0x0C, 0x0F, 0x08, 0x48, 0x98, 0x37, 0x0A, 0x13, 0x04, 0x11, 0x0D, 0x00];
    push_all(&mut ops, cmd_ops(0xE0, &gp));
    let gn = [0x0Fu8, 0x32, 0x2E, 0x0B, 0x0D, 0x05, 0x47, 0x75, 0x37, 0x06, 0x10, 0x03, 0x24, 0x20, 0x00];
    push_all(&mut ops, cmd_ops(0xE1, &gn));
    if cfg.invert {
        push_all(&mut ops, cmd_ops(0x21, &empty));
    } else {
        push_all(&mut ops, cmd_ops(0x20, &empty));
    }
    push_all(&mut ops, cmd_ops(0x29, &empty));
    push_all(&mut ops, single(PanelOp::SleepMs(50)));
    proof {
        assert(pf@ =~= seq![cfg.pixel_format]);
        assert(md@ =~= seq![cfg.madctl]);
        assert(pc@ =~= seq![0x55u8]);
        assert(vc@ =~= seq![0u8, 0, 0, 0]);
        assert(gp@ =~= gamma_pos());
        assert(gn@ =~= gamma_neg());
        assert(steps(ops@) =~= init_steps(cfg.pixel_format, cfg.madctl, cfg.invert));
    }
    ops
}

/// The bytes the panel receives for a frame under a configuration.
pub fn make_transfer_buffer(cfg: &PanelConfig, fb: &FrameBuffer) -> (tx: TransferBuffer)
    requires
        fb@.wf(),
        3 * fb@.pixels.len() <= usize::MAX,
    ensures
        tx@ == framebuffer::transfer_bytes(fb@, cfg.pixel_format, cfg.flush_order),
{
    fb.to_transfer_buffer(cfg.pixel_format, cfg.flush_order)
}

/// One write per range of the write plan for `data` in the given mode.
pub open spec fn planned_writes(data: Seq<u8>, mode: TransferMode) -> Seq<Step> {
    let plan = bus::write_plan_spec(data.len() as int, mode);
    Seq::new(plan.len(), |i: int| Step::Write(data.subrange(plan[i].0, plan[i].1)))
}

/// Sending a prepared buffer: the full-panel window, D/C high, then the buffer written
/// according to the transfer mode.
pub open spec fn flush_steps(width: u16, height: u16, data: Seq<u8>, mode: TransferMode) -> Seq<Step> {
    window_steps(0, 0, (width - 1) as u16, (height - 1) as u16) + seq![Step::DcHigh] + planned_writes(data, mode)
}

/// The operations that send a prepared buffer to the whole panel. The panel must be at
/// least one pixel each way.
pub fn flush_transfer_buffer_ops(cfg: &PanelConfig, tx: &TransferBuffer) -> (ops: Vec<PanelOp>)
    requires
        cfg.width >= 1,
        cfg.height >= 1,
    ensures
        steps(ops@) == flush_steps(cfg.width, cfg.height, tx@, cfg.transfer_mode),
{
    let mut ops = set_window_ops(0, 0, cfg.width - 1, cfg.height - 1);
    push_all(&mut ops, single(PanelOp::DcHigh));
    let data = tx.as_slice();
    let plan = bus::write_plan(data.len(), cfg.transfer_mode);
    let w = writes_for(data, &plan);
    proof {
        assert(steps(w@) =~= planned_writes(tx@, cfg.transfer_mode));
    }
    push_all(&mut ops, w);
    ops
}

/// The operations that send a whole frame: its transfer buffer, then the buffer to the panel.
pub fn flush_ops(cfg: &PanelConfig, fb: &FrameBuffer) -> (ops: Vec<PanelOp>)
    requires
        fb@.wf(),
        3 * fb@.pixels.len() <= usize::MAX,
        cfg.width >= 1,
        cfg.height >= 1,
    ensures
        steps(ops@) == flush_steps(
            cfg.width,
            cfg.height,
            framebuffer::transfer_bytes(fb@, cfg.pixel_format, cfg.flush_order),
            cfg.transfer_mode,
        ),
{
    let tx = make_transfer_buffer(cfg, fb);
    flush_transfer_buffer_ops(cfg, &tx)
}

/// Number of pixel bytes `flush_region` sends: two per pixel of the region, but no more
/// than the page holds.
pub open spec fn region_payload_len(region: DirtyRegion, page_bytes: int) -> int {
    framebuffer::min_int(region.width * region.height * 2, page_bytes)
}

/// Sending a page for a region: the region's window, D/C high, then the first
/// `region_payload_len` bytes of the page in writes of at most 4096 bytes.
pub open spec fn region_steps(region: DirtyRegion, page: Seq<u8>) -> Seq<Step> {
    window_steps(
        region.x,
        region.y,
        (region.x + framebuffer::sat_sub(region.width as int, 1)) as u16,
        (region.y + framebuffer::sat_sub(region.height as int, 1)) as u16,
    ) + seq![Step::DcHigh] + chunked_writes(page.take(region_payload_len(region, page.len() as int)), param_chunk())
}

/// `flush_region` does not overflow on this region and page.
pub open spec fn region_ok(region: DirtyRegion, page: framebuffer::PageBuffer) -> bool {
    &&& region.x + framebuffer::sat_sub(region.width as int, 1) <= 0xFFFF
    &&& region.y + framebuffer::sat_sub(region.height as int, 1) <= 0xFFFF
    &&& 2 * region.width * region.height <= usize::MAX
    &&& 2 * page@.pixels.len() <= usize::MAX
}

/// The operations that send `region` from `page`, whose top-left corner holds the region.
pub fn flush_region_ops(region: DirtyRegion, page: &PageBuffer) -> (ops: Vec<PanelOp>)
    requires
        page@.wf(),
        region_ok(region, *page),
    ensures
        steps(ops@) == region_steps(region, framebuffer::be_stream(page@.pixels)),
{
    let x1 = region.x + region.width.saturating_sub(1);
    let y1 = region.y + region.height.saturating_sub(1);
    let mut ops = set_window_ops(region.x, region.y, x1, y1);
    push_all(&mut ops, single(PanelOp::DcHigh));
    let bytes = page.as_bytes_be();
    proof {
        assert(region.width * region.height * 2 == 2 * region.width * region.height) by (nonlinear_arith);
    }
    let valid_len = region.width as usize * region.height as usize * 2;
    let n = if valid_len < bytes.len() { valid_len } else { bytes.len() };
    let head = copy_range(bytes.as_slice(), 0, n);
    proof {
        assert(head@ =~= framebuffer::be_stream(page@.pixels).take(n as int));
    }
    push_all(&mut ops, chunked_write_ops(head.as_slice(), 4096));
    ops
}

} // verus!

verus! {

/// The bytes of all the writes among `s`, one after another.
pub open spec fn written_bytes(s: Seq<Step>) -> Seq<u8>
    decreases s.len(),
{
    if s.len() == 0 {
        Seq::empty()
    } else {
        written_bytes(s.drop_last()) + match s.last() {
            Step::Write(b) => b,
            _ => Seq::empty(),
        }
    }
}

proof fn lemma_written_gather(data: Seq<u8>, plan: Seq<(int, int)>)
    ensures
        written_bytes(Seq::new(plan.len(), |i: int| Step::Write(data.subrange(plan[i].0, plan[i].1))))
            == bus::gather(data, plan),
    decreases plan.len(),
{
    let ws = Seq::new(plan.len(), |i: int| Step::Write(data.subrange(plan[i].0, plan[i].1)));
    if plan.len() > 0 {
        let p2 = plan.drop_last();
        lemma_written_gather(data, p2);
        assert(ws.drop_last() =~= Seq::new(p2.len(), |i: int| Step::Write(data.subrange(p2[i].0, p2[i].1))));
    }
}

/// Law: flushing a prepared buffer selects the whole panel, raises D/C, and then writes
/// nothing but the buffer: every later step is a write, and the writes one after another
/// are exactly the buffer, whatever the transfer mode.
pub proof fn lemma_flush_sends_buffer(width: u16, height: u16, data: Seq<u8>, mode: TransferMode)
    ensures
        flush_steps(width, height, data, mode) == window_steps(0, 0, (width - 1) as u16, (height - 1) as u16)
            + seq![Step::DcHigh] + planned_writes(data, mode),
        forall|i: int| 0 <= i < planned_writes(data, mode).len() ==> (#[trigger] planned_writes(data, mode)[i]) is Write,
        written_bytes(planned_writes(data, mode)) == data,
{
    lemma_written_gather(data, bus::write_plan_spec(data.len() as int, mode));
    bus::lemma_write_plan_covers(data, mode);
}

/// Law: the parameters of a command reach the panel whole and in order: the writes after
/// the command byte are exactly the parameters, each at most 4096 bytes.
pub proof fn lemma_command_sends_params(cmd: u8, data: Seq<u8>)
    ensures
        command_steps(cmd, data).take(2) == seq![Step::DcLow, Step::Write(seq![cmd])],
        written_bytes(chunked_writes(data, param_chunk())) == data,
        forall|i: int|
            0 <= i < chunked_writes(data, param_chunk()).len() ==> ((#[trigger] chunked_writes(data, param_chunk())[i]) matches Step::Write(b)
                && 0 < b.len() <= 4096),
{
    let plan = bus::chunk_plan(data.len() as int, 4096);
    assert(chunked_writes(data, 4096) =~= Seq::new(plan.len(), |i: int| Step::Write(data.subrange(plan[i].0, plan[i].1))));
    lemma_written_gather(data, plan);
    bus::lemma_chunks_cover(data, 4096);
    assert forall|i: int| 0 <= i < chunked_writes(data, param_chunk()).len() implies ((#[trigger] chunked_writes(data, param_chunk())[i]) matches Step::Write(b)
        && 0 < b.len() <= 4096) by {
        assert(0 < plan[i].1 - plan[i].0 <= 4096);
        bus::lemma_chunk_below(data.len() as int, 4096, i);
    }
    assert(command_steps(cmd, data).take(2) =~= seq![Step::DcLow, Step::Write(seq![cmd])]);
}

/// Law: the window command carries its corners big-endian: the column command `0x2A` gets
/// `x0` then `x1`, the row command `0x2B` gets `y0` then `y1`, each as a high and a low byte,
/// and the memory write `0x2C` follows.
pub proof fn lemma_window_layout(x0: u16, y0: u16, x1: u16, y1: u16)
    ensures
        window_steps(x0, y0, x1, y1) == seq![
            Step::DcLow,
            Step::Write(seq![0x2Au8]),
            Step::DcHigh,
            Step::Write(be16(x0) + be16(x1)),
            Step::DcLow,
            Step::Write(seq![0x2Bu8]),
            Step::DcHigh,
            Step::Write(be16(y0) + be16(y1)),
            Step::DcLow,
            Step::Write(seq![0x2Cu8]),
        ],
        forall|v: u16| (#[trigger] be16(v))[0] * 256 + be16(v)[1] == v,
{
    let px = be16(x0) + be16(x1);
    let py = be16(y0) + be16(y1);
    assert(chunked_writes(px, 4096) =~= seq![Step::Write(px)]) by {
        assert(bus::chunk_count(4, 4096) == 1);
        assert(px.subrange(0, 4) =~= px);
    }
    assert(chunked_writes(py, 4096) =~= seq![Step::Write(py)]) by {
        assert(bus::chunk_count(4, 4096) == 1);
        assert(py.subrange(0, 4) =~= py);
    }
    assert(window_steps(x0, y0, x1, y1) =~= seq![
        Step::DcLow,
        Step::Write(seq![0x2Au8]),
        Step::DcHigh,
        Step::Write(px),
        Step::DcLow,
        Step::Write(seq![0x2Bu8]),
        Step::DcHigh,
        Step::Write(py),
        Step::DcLow,
        Step::Write(seq![0x2Cu8]),
    ]);
}

} // verus!
