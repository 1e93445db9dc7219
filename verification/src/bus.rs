//! How a byte buffer is split into SPI writes.
use vstd::prelude::*;

verus! {

/// How a large buffer is handed to the SPI bus.
#[derive(Clone, Copy, PartialEq, Eq, Structural, Debug)]
pub enum TransferMode {
    /// One write for the whole buffer.
    Blocking,
    /// Writes of at most `chunk_size` bytes (a size of 0 counts as 1).
    Chunked { chunk_size: usize },
    /// Reserved for a DMA path; for now one write for the whole buffer.
    DmaCandidate,
}

/// The `i`-th of the pieces of a `len`-byte buffer cut every `size` bytes.
pub open spec fn chunk_at(len: int, size: int, i: int) -> (int, int) {
    (i * size, if (i + 1) * size <= len { (i + 1) * size } else { len })
}

/// Number of pieces of a `len`-byte buffer cut every `size` bytes (the last may be shorter).
pub open spec fn chunk_count(len: int, size: int) -> int {
    (len + size - 1) / size
}

/// The pieces of a `len`-byte buffer cut every `size` bytes, as ranges.
pub open spec fn chunk_plan(len: int, size: int) -> Seq<(int, int)> {
    Seq::new(chunk_count(len, size) as nat, |i: int| chunk_at(len, size, i))
}

/// The bytes of `data` that the ranges select, one range after another.
pub open spec fn gather(data: Seq<u8>, ranges: Seq<(int, int)>) -> Seq<u8>
    decreases ranges.len(),
{
    if ranges.len() == 0 {
        Seq::empty()
    } else {
        gather(data, ranges.drop_last()) + data.subrange(ranges.last().0, ranges.last().1)
    }
}

/// The ranges that cut a `len`-byte buffer into consecutive pieces of `size` bytes, the
/// last piece holding what remains; no range for an empty buffer.
pub fn chunk_ranges(len: usize, size: usize) -> (r: Vec<(usize, usize)>)
    requires
        size >= 1,
    ensures
        r@.len() == chunk_count(len as int, size as int),
        forall|i: int|
            0 <= i < r@.len() ==> (#[trigger] r@[i]).0 as int == chunk_at(len as int, size as int, i).0
                && r@[i].1 as int == chunk_at(len as int, size as int, i).1,
        forall|i: int| 0 <= i < r@.len() ==> (#[trigger] r@[i]).0 <= r@[i].1 <= len,
{
    let mut r: Vec<(usize, usize)> = Vec::new();
    let mut start: usize = 0;
    let ghost mut k: int = 0;
    while start < len
        invariant
            size >= 1,
            start == (if k * size <= len { k * size } else { len as int }),
            start <= len,
            0 <= k,
            r@.len() == k,
            k > 0 ==> (k - 1) * size < len,
            forall|i: int| 0 <= i < r@.len() ==> (#[trigger] r@[i]).0 <= r@[i].1 <= len,
            forall|i: int|
                0 <= i < r@.len() ==> (#[trigger] r@[i]).0 as int == chunk_at(len as int, size as int, i).0
                    && r@[i].1 as int == chunk_at(len as int, size as int, i).1,
        decreases len - start,
    {
        let end = if len - start > size { start + size } else { len };
        proof {
            assert((k + 1) * size == k * size + size) by (nonlinear_arith);
        }
        r.push((start, end));
        start = end;
        proof {
            k = k + 1;
        }
    }
    proof {
        lemma_chunk_count(len as int, size as int, k);
    }
    r
}

proof fn lemma_chunk_count(len: int, size: int, k: int)
    requires
        size >= 1,
        k >= 0,
        len >= 0,
        (k == 0 && len == 0) || (k > 0 && (k - 1) * size < len <= k * size),
    ensures
        k == chunk_count(len, size),
{
    if k > 0 {
        assert((k - 1) * size + size == k * size) by (nonlinear_arith);
        vstd::arithmetic::div_mod::lemma_fundamental_div_mod_converse(len + size - 1, size, k, len - 1 - (k - 1) * size);
    } else {
        vstd::arithmetic::div_mod::lemma_fundamental_div_mod_converse(size - 1, size, 0, size - 1);
    }
}

/// The writes `write_buffer` makes for a `len`-byte buffer: the whole buffer at once when
/// blocking or DMA, otherwise pieces of the chunk size (at least 1).
pub open spec fn write_plan_spec(len: int, mode: TransferMode) -> Seq<(int, int)> {
    match mode {
        TransferMode::Chunked { chunk_size } => {
            chunk_plan(len, if chunk_size >= 1 { chunk_size as int } else { 1 })
        },
        _ => seq![(0, len)],
    }
}

/// The byte ranges, in order, that `write_buffer` writes for a `len`-byte buffer.
pub fn write_plan(len: usize, mode: TransferMode) -> (r: Vec<(usize, usize)>)
    ensures
        r@.len() == write_plan_spec(len as int, mode).len(),
        forall|i: int|
            0 <= i < r@.len() ==> (#[trigger] r@[i]).0 as int == write_plan_spec(len as int, mode)[i].0
                && r@[i].1 as int == write_plan_spec(len as int, mode)[i].1,
        forall|i: int| 0 <= i < r@.len() ==> (#[trigger] r@[i]).0 <= r@[i].1 <= len,
{
    match mode {
        TransferMode::Chunked { chunk_size } => {
            let size = if chunk_size >= 1 { chunk_size } else { 1 };
            chunk_ranges(len, size)
        },
        _ => {
            let mut r: Vec<(usize, usize)> = Vec::new();
            r.push((0, len));
            r
        },
    }
}

} // verus!

verus! {

proof fn lemma_gather_prefix(data: Seq<u8>, size: int, k: int)
    requires
        size >= 1,
        0 <= k <= chunk_count(data.len() as int, size),
    ensures
        gather(data, chunk_plan(data.len() as int, size).take(k)) == data.take(
            crate::framebuffer::min_int(k * size, data.len() as int),
        ),
    decreases k,
{
    let len = data.len() as int;
    let ranges = chunk_plan(len, size);
    if k == 0 {
        assert(ranges.take(0) =~= Seq::<(int, int)>::empty());
        assert(0 * size == 0);
        assert(data.take(0) =~= Seq::<u8>::empty());
    } else {
        lemma_gather_prefix(data, size, k - 1);
        let t = ranges.take(k);
        assert(t.drop_last() =~= ranges.take(k - 1));
        assert(t.last() == ranges[k - 1]);
        assert(k * size == (k - 1) * size + size) by (nonlinear_arith);
        lemma_chunk_below(len, size, k - 1);
        assert(data.take(crate::framebuffer::min_int(k * size, len)) =~= data.take((k - 1) * size) + data.subrange(
            (k - 1) * size,
            crate::framebuffer::min_int(k * size, len),
        ));
    }
}

/// Every piece starts inside the buffer.
pub proof fn lemma_chunk_below(len: int, size: int, i: int)
    requires
        size >= 1,
        0 <= i < chunk_count(len, size),
    ensures
        0 <= i * size < len,
        (i + 1) * size == i * size + size,
{
    let n = chunk_count(len, size);
    vstd::arithmetic::div_mod::lemma_fundamental_div_mod(len + size - 1, size);
    vstd::arithmetic::div_mod::lemma_mod_bound(len + size - 1, size);
    assert(i * size <= (n - 1) * size) by (nonlinear_arith)
        requires
            i <= n - 1,
            size >= 1,
    ;
    assert((n - 1) * size + size == size * n) by (nonlinear_arith);
    assert((i + 1) * size == i * size + size) by (nonlinear_arith);
    assert(0 <= i * size) by (nonlinear_arith)
        requires
            0 <= i,
            size >= 1,
    ;
}

/// Law: cutting a buffer into pieces of `size` bytes and writing the pieces in order writes
/// exactly the buffer, and every piece holds between 1 and `size` bytes.
pub proof fn lemma_chunks_cover(data: Seq<u8>, size: int)
    requires
        size >= 1,
    ensures
        gather(data, chunk_plan(data.len() as int, size)) == data,
        forall|i: int|
            0 <= i < chunk_plan(data.len() as int, size).len() ==> 0 < (#[trigger] chunk_plan(
                data.len() as int,
                size,
            )[i]).1 - chunk_plan(data.len() as int, size)[i].0 <= size,
{
    let len = data.len() as int;
    let ranges = chunk_plan(len, size);
    let n = ranges.len() as int;
    lemma_gather_prefix(data, size, n);
    assert(ranges.take(n) =~= ranges);
    vstd::arithmetic::div_mod::lemma_fundamental_div_mod(len + size - 1, size);
    vstd::arithmetic::div_mod::lemma_mod_bound(len + size - 1, size);
    assert(n * size >= len) by (nonlinear_arith)
        requires
            len + size - 1 == size * n + (len + size - 1) % size,
            (len + size - 1) % size < size,
    ;
    assert(data.take(len) =~= data);
    assert forall|i: int| 0 <= i < n implies 0 < (#[trigger] ranges[i]).1 - ranges[i].0 <= size by {
        lemma_chunk_below(len, size, i);
    }
}

/// Law: whatever the mode, the writes `write_buffer` makes for a buffer, one after another,
/// are exactly the buffer.
pub proof fn lemma_write_plan_covers(data: Seq<u8>, mode: TransferMode)
    ensures
        gather(data, write_plan_spec(data.len() as int, mode)) == data,
{
    match mode {
        TransferMode::Chunked { chunk_size } => {
            lemma_chunks_cover(data, if chunk_size >= 1 { chunk_size as int } else { 1 });
        },
        _ => {
            let p = write_plan_spec(data.len() as int, mode);
            assert(p.drop_last() =~= Seq::<(int, int)>::empty());
            assert(gather(data, p.drop_last()) == Seq::<u8>::empty());
            assert(p.last() == (0int, data.len() as int));
            assert(data.subrange(0, data.len() as int) =~= data);
            assert(gather(data, p) =~= data);
        },
    }
}

} // verus!
