//! System load summary: the process list and how its rows are chosen.
use vstd::prelude::*;
use crate::delta::is_ws;
use crate::framebuffer;
use crate::text;

verus! {

/// One process row.
#[derive(Debug, Clone)]
pub struct ProcEntry {
    pub label: String,
    pub cpu: u8,
    pub mem: u8,
}

/// Overall load and the busiest processes.
#[derive(Debug, Clone)]
pub struct SystemStatus {
    pub cpu_percent: u8,
    pub mem_percent: u8,
    pub top_threads: Vec<ProcEntry>,
}

/// The abstract form of a process row.
pub open spec fn proc_view(p: ProcEntry) -> (Seq<char>, u8, u8) {
    (p.label@, p.cpu, p.mem)
}

/// The abstract form of a list of process rows.
pub open spec fn procs_view(v: Seq<ProcEntry>) -> Seq<(Seq<char>, u8, u8)> {
    Seq::new(v.len(), |i: int| proc_view(v[i]))
}

/// The rows shown when no process could be read.
pub open spec fn fallback_rows() -> Seq<(Seq<char>, u8, u8)> {
    seq![("idle"@, 0u8, 0u8), ("system"@, 0u8, 0u8), ("worker"@, 0u8, 0u8)]
}

/// The first `max_len` characters of `s`.
pub fn truncate_label(s: &str, max_len: usize) -> (r: String)
    ensures
        r@ == s@.take(framebuffer::min_int(max_len as int, s@.len() as int)),
{
    let v = text::str_chars(s);
    let n = if max_len < v.len() { max_len } else { v.len() };
    let mut out: Vec<char> = Vec::new();
    let mut i: usize = 0;
    while i < n
        invariant
            n <= v@.len(),
            v@ == s@,
            i <= n,
            out@ == v@.take(i as int),
        decreases n - i,
    {
        out.push(v[i]);
        i = i + 1;
        proof {
            assert(out@ =~= v@.take(i as int));
        }
    }
    text::string_from_chars(&out)
}

fn row(label: &str) -> (p: ProcEntry)
    ensures
        proc_view(p) == (label@, 0u8, 0u8),
{
    ProcEntry { label: label.to_owned(), cpu: 0, mem: 0 }
}

/// Three placeholder rows: idle, system, worker, all at zero.
pub fn fallback_entries() -> (v: Vec<ProcEntry>)
    ensures
        procs_view(v@) == fallback_rows(),
{
    let mut v: Vec<ProcEntry> = Vec::new();
    v.push(row("idle"));
    v.push(row("system"));
    v.push(row("worker"));
    assert(procs_view(v@) =~= fallback_rows());
    v
}

/// How many of `n` readable rows are kept for a `limit`: rows are taken until there are
/// `limit` of them, but the first readable row is always taken.
pub open spec fn kept_rows(n: int, limit: int) -> int {
    framebuffer::min_int(if limit >= 1 { limit } else { 1 }, n)
}

/// The rows shown for the readable process rows, in order: the first `kept_rows` of them,
/// or the placeholder rows when there is none.
pub fn select_top_processes(candidates: Vec<ProcEntry>, limit: usize) -> (r: Vec<ProcEntry>)
    ensures
        procs_view(r@) == (if candidates@.len() == 0 {
            fallback_rows()
        } else {
            procs_view(candidates@).take(kept_rows(candidates@.len() as int, limit as int))
        }),
{
    if candidates.len() == 0 {
        return fallback_entries();
    }
    let keep = if limit >= 1 { limit } else { 1 };
    let mut items = candidates;
    let ghost all = items@;
    if keep < items.len() {
        items.truncate(keep);
    }
    assert(procs_view(items@) =~= procs_view(all).take(kept_rows(all.len() as int, limit as int)));
    items
}

/// The status from the overall usage, when it could be read (zeros otherwise), and the
/// process rows.
pub fn read_system_status(usage: Option<(u8, u8)>, top_threads: Vec<ProcEntry>) -> (s: SystemStatus)
    ensures
        (s.cpu_percent, s.mem_percent) == (match usage {
            Some(u) => u,
            None => (0u8, 0u8),
        }),
        s.top_threads@ == top_threads@,
{
    let (cpu_percent, mem_percent) = match usage {
        Some(u) => u,
        None => (0, 0),
    };
    SystemStatus { cpu_percent, mem_percent, top_threads }
}

/// Splitting a line into white-space separated fields, as far as it goes: the finished
/// fields and the field still being read.
pub open spec fn fields_acc(s: Seq<char>) -> (Seq<Seq<char>>, Seq<char>)
    decreases s.len(),
{
    if s.len() == 0 {
        (Seq::empty(), Seq::empty())
    } else {
        let (done, cur) = fields_acc(s.drop_last());
        if is_ws(s.last()) {
            if cur.len() > 0 {
                (done.push(cur), Seq::empty())
            } else {
                (done, Seq::empty())
            }
        } else {
            (done, cur.push(s.last()))
        }
    }
}

/// The white-space separated fields of a line (`str::split_whitespace`).
pub open spec fn fields(s: Seq<char>) -> Seq<Seq<char>> {
    let (done, cur) = fields_acc(s);
    if cur.len() > 0 {
        done.push(cur)
    } else {
        done
    }
}

/// The label of a process line: its first field cut to 12 characters, when the line has
/// at least three fields.
pub fn proc_label(line: &str) -> (r: Option<String>)
    ensures
        match r {
            Some(l) => fields(line@).len() >= 3 && l@ == fields(line@)[0].take(
                framebuffer::min_int(12, fields(line@)[0].len() as int),
            ),
            None => fields(line@).len() < 3,
        },
{
    let v = text::str_chars(line);
    let mut count: usize = 0;
    let mut first: Vec<char> = Vec::new();
    let mut cur: Vec<char> = Vec::new();
    let mut i: usize = 0;
    let ghost mut done: Seq<Seq<char>> = Seq::empty();
    while i < v.len()
        invariant
            v@ == line@,
            i <= v@.len(),
            fields_acc(v@.take(i as int)) == (done, cur@),
            count == done.len() || (count == 3 && done.len() >= 3),
            count <= 3,
            count >= 1 ==> first@ == done[0],
            count == 0 ==> first@ == cur@,
        decreases v@.len() - i,
    {
        let c = v[i];
        proof {
            assert(v@.take(i + 1).drop_last() =~= v@.take(i as int));
            assert(v@.take(i + 1).last() == c);
        }
        if crate::delta::is_whitespace(c) {
            if cur.len() > 0 {
                proof {
                    if done.len() >= 1 {
                        assert(done.push(cur@)[0] == done[0]);
                    }
                    done = done.push(cur@);
                }
                if count < 3 {
                    count = count + 1;
                }
                cur = Vec::new();
            }
        } else {
            cur.push(c);
            if count == 0 {
                first.push(c);
            }
        }
        i = i + 1;
    }
    proof {
        assert(v@.take(v@.len() as int) =~= v@);
    }
    let total_ok = count >= 3 || (count == 2 && cur.len() > 0);
    if total_ok {
        proof {
            let f = fields(v@);
            if done.len() >= 1 {
                assert(f[0] == done[0]);
            }
        }
        let label = string_take(&first, 12);
        Some(label)
    } else {
        None
    }
}

fn string_take(v: &Vec<char>, n: usize) -> (s: String)
    ensures
        s@ == v@.take(framebuffer::min_int(n as int, v@.len() as int)),
{
    let m = if n < v.len() { n } else { v.len() };
    let mut out: Vec<char> = Vec::new();
    let mut i: usize = 0;
    while i < m
        invariant
            m <= v@.len(),
            i <= m,
            out@ == v@.take(i as int),
        decreases m - i,
    {
        out.push(v[i]);
        i = i + 1;
        proof {
            assert(out@ =~= v@.take(i as int));
        }
    }
    text::string_from_chars(&out)
}

} // verus!

verus! {

/// The white-space separated fields of `v[a..b]`.
fn split_fields(v: &Vec<char>, a: usize, b: usize) -> (r: Vec<Vec<char>>)
    requires
        a <= b <= v@.len(),
    ensures
        r@.map_values(|f: Vec<char>| f@) == fields(v@.subrange(a as int, b as int)),
{
    let ghost s = v@.subrange(a as int, b as int);
    let mut done: Vec<Vec<char>> = Vec::new();
    let mut cur: Vec<char> = Vec::new();
    let mut i = a;
    proof {
        assert(s.take(0) =~= Seq::<char>::empty());
        assert(done@.map_values(|f: Vec<char>| f@) =~= Seq::<Seq<char>>::empty());
    }
    while i < b
        invariant
            a <= i <= b,
            b <= v@.len(),
            s == v@.subrange(a as int, b as int),
            fields_acc(s.take(i - a)) == (done@.map_values(|f: Vec<char>| f@), cur@),
        decreases b - i,
    {
        let c = v[i];
        proof {
            assert(s.take(i - a + 1).drop_last() =~= s.take(i - a));
            assert(s.take(i - a + 1).last() == c);
        }
        if crate::delta::is_whitespace(c) {
            if cur.len() > 0 {
                let ghost before = done@.map_values(|f: Vec<char>| f@);
                let ghost cv = cur@;
                let mut fresh: Vec<char> = Vec::new();
                std::mem::swap(&mut fresh, &mut cur);
                done.push(fresh);
                proof {
                    assert(done@.map_values(|f: Vec<char>| f@) =~= before.push(cv));
                }
            }
        } else {
            cur.push(c);
        }
        i = i + 1;
    }
    proof {
        assert(s.take(b - a) =~= s);
    }
    if cur.len() > 0 {
        let ghost before = done@.map_values(|f: Vec<char>| f@);
        let ghost cv = cur@;
        done.push(cur);
        proof {
            assert(done@.map_values(|f: Vec<char>| f@) =~= before.push(cv));
        }
    }
    done
}

/// A number's text without its optional leading `+`.
pub open spec fn unsigned_part(s: Seq<char>) -> Seq<char> {
    if s.len() > 0 && s[0] == '+' {
        s.drop_first()
    } else {
        s
    }
}

/// Every character is an ASCII digit.
pub open spec fn all_digits(d: Seq<char>) -> bool {
    forall|i: int| 0 <= i < d.len() ==> crate::delta::is_ascii_digit(#[trigger] d[i])
}

/// The value of a text in the form `u64`'s `from_str` accepts: an optional `+`, then one or
/// more ASCII digits whose value fits in 64 bits; `None` for any other text.
pub open spec fn parse_u64_spec(s: Seq<char>) -> Option<u64> {
    let d = unsigned_part(s);
    if d.len() > 0 && all_digits(d) && text::decimal_value(d) <= u64::MAX {
        Some(text::decimal_value(d) as u64)
    } else {
        None
    }
}

proof fn lemma_value_grows(d: Seq<char>, i: int)
    requires
        0 <= i <= d.len(),
        forall|k: int| 0 <= k < d.len() ==> crate::delta::is_ascii_digit(#[trigger] d[k]),
    ensures
        0 <= text::decimal_value(d.take(i)) <= text::decimal_value(d),
    decreases d.len() - i,
{
    if i < d.len() {
        lemma_value_grows(d, i + 1);
        assert(d.take(i + 1).drop_last() =~= d.take(i));
        assert(d.take(i + 1).last() == d[i]);
        lemma_value_nonneg(d.take(i));
    } else {
        assert(d.take(i) =~= d);
        lemma_value_nonneg(d);
    }
}

proof fn lemma_value_nonneg(d: Seq<char>)
    requires
        forall|k: int| 0 <= k < d.len() ==> crate::delta::is_ascii_digit(#[trigger] d[k]),
    ensures
        0 <= text::decimal_value(d),
    decreases d.len(),
{
    if d.len() > 0 {
        assert(crate::delta::is_ascii_digit(d[d.len() - 1]));
        lemma_value_nonneg(d.drop_last());
    }
}

proof fn lemma_parse_none(s: Seq<char>, d: Seq<char>)
    requires
        d == unsigned_part(s),
        !(d.len() > 0 && all_digits(d) && text::decimal_value(d) <= u64::MAX),
    ensures
        parse_u64_spec(s) == None::<u64>,
{
}

/// Reads `v[a..b]` as `u64`'s `from_str` does.
fn parse_u64(v: &Vec<char>, a: usize, b: usize) -> (r: Option<u64>)
    requires
        a <= b <= v@.len(),
    ensures
        r == parse_u64_spec(v@.subrange(a as int, b as int)),
{
    let ghost s = v@.subrange(a as int, b as int);
    let start = if a < b && v[a] == '+' { a + 1 } else { a };
    let ghost d = v@.subrange(start as int, b as int);
    proof {
        if a < b && v@[a as int] == '+' {
            assert(d =~= s.drop_first());
        } else {
            assert(d =~= s);
        }
    }
    if start == b {
        return None;
    }
    let mut acc: u64 = 0;
    let mut i = start;
    proof {
        assert(d.take(0) =~= Seq::<char>::empty());
    }
    while i < b
        invariant
            start <= i <= b,
            b <= v@.len(),
            d == v@.subrange(start as int, b as int),
            s == v@.subrange(a as int, b as int),
            d == unsigned_part(s),
            d.len() > 0,
            forall|k: int| 0 <= k < i - start ==> crate::delta::is_ascii_digit(#[trigger] d[k]),
            acc as int == text::decimal_value(d.take(i - start)),
        decreases b - i,
    {
        let c = v[i];
        proof {
            assert(d[i - start] == c);
        }
        if !('0' <= c && c <= '9') {
            proof {
                assert(!crate::delta::is_ascii_digit(d[i - start]));
                assert(!all_digits(d));
                lemma_parse_none(s, d);
            }
            return None;
        }
        let dg: u64 = ((c as u32) - 48) as u64;
        let nv: u128 = (acc as u128) * 10 + (dg as u128);
        proof {
            assert(d.take(i - start + 1).drop_last() =~= d.take(i - start));
            assert(d.take(i - start + 1).last() == c);
        }
        proof {
            assert(text::decimal_value(d.take(i - start + 1)) == nv as int);
        }
        if nv > 0xFFFF_FFFF_FFFF_FFFFu128 {
            proof {
                if all_digits(d) {
                    lemma_value_grows(d, i - start + 1);
                }
                lemma_parse_none(s, d);
            }
            return None;
        }
        acc = nv as u64;
        i = i + 1;
    }
    proof {
        assert(d.take(b - start) =~= d);
    }
    Some(acc)
}

/// Whether `l` begins with `p`.
pub open spec fn starts_with(l: Seq<char>, p: Seq<char>) -> bool {
    p.len() <= l.len() && l.take(p.len() as int) == p
}

/// Reading the memory summary line by line, as far as it goes: whether a size line without
/// a value stopped the reading, and the total and available sizes last read.
pub open spec fn meminfo_acc(ls: Seq<Seq<char>>) -> (bool, Option<u64>, Option<u64>)
    decreases ls.len(),
{
    if ls.len() == 0 {
        (false, None, None)
    } else {
        let prev = meminfo_acc(ls.drop_last());
        let l = ls.last();
        let f = fields(l);
        if prev.0 {
            prev
        } else if starts_with(l, "MemTotal:"@) {
            if f.len() < 2 {
                (true, prev.1, prev.2)
            } else {
                (false, parse_u64_spec(f[1]), prev.2)
            }
        } else if starts_with(l, "MemAvailable:"@) {
            if f.len() < 2 {
                (true, prev.1, prev.2)
            } else {
                (false, prev.1, parse_u64_spec(f[1]))
            }
        } else {
            prev
        }
    }
}

/// The total and available memory in kB a `/proc/meminfo` text gives: the second field of
/// the last `MemTotal:` and `MemAvailable:` lines, read as numbers; nothing when either is
/// missing or unreadable, or when such a line has no second field.
pub open spec fn meminfo_spec(text: Seq<char>) -> Option<(u64, u64)> {
    let r = meminfo_acc(crate::delta::lines(text));
    if r.0 {
        None
    } else {
        match (r.1, r.2) {
            (Some(t), Some(a)) => Some((t, a)),
            _ => None,
        }
    }
}

/// Whether `v[a..b]` begins with the characters of `p`.
fn range_starts_with(v: &Vec<char>, a: usize, b: usize, p: &Vec<char>) -> (r: bool)
    requires
        a <= b <= v@.len(),
    ensures
        r == starts_with(v@.subrange(a as int, b as int), p@),
{
    let ghost l = v@.subrange(a as int, b as int);
    if p.len() > b - a {
        return false;
    }
    let mut k: usize = 0;
    while k < p.len()
        invariant
            k <= p@.len(),
            p@.len() <= b - a,
            a <= b <= v@.len(),
            l == v@.subrange(a as int, b as int),
            forall|j: int| 0 <= j < k ==> l[j] == p@[j],
        decreases p@.len() - k,
    {
        if v[a + k] != p[k] {
            proof {
                assert(l.take(p@.len() as int)[k as int] != p@[k as int]);
            }
            return false;
        }
        k = k + 1;
    }
    proof {
        assert(l.take(p@.len() as int) =~= p@);
    }
    true
}

/// One line of the memory summary read into the state `(stopped, total, available)`.
fn meminfo_line(
    v: &Vec<char>,
    a: usize,
    b: usize,
    total_p: &Vec<char>,
    avail_p: &Vec<char>,
    st: (bool, Option<u64>, Option<u64>),
) -> (r: (bool, Option<u64>, Option<u64>))
    requires
        a <= b <= v@.len(),
        total_p@ == "MemTotal:"@,
        avail_p@ == "MemAvailable:"@,
    ensures
        ({
            let l = v@.subrange(a as int, b as int);
            let f = fields(l);
            r == (if st.0 {
                st
            } else if starts_with(l, "MemTotal:"@) {
                if f.len() < 2 {
                    (true, st.1, st.2)
                } else {
                    (false, parse_u64_spec(f[1]), st.2)
                }
            } else if starts_with(l, "MemAvailable:"@) {
                if f.len() < 2 {
                    (true, st.1, st.2)
                } else {
                    (false, st.1, parse_u64_spec(f[1]))
                }
            } else {
                st
            })
        }),
{
    if st.0 {
        return st;
    }
    let is_total = range_starts_with(v, a, b, total_p);
    let is_avail = if is_total { false } else { range_starts_with(v, a, b, avail_p) };
    if !is_total && !is_avail {
        return st;
    }
    let fs = split_fields(v, a, b);
    proof {
        assert(fs@.len() == fields(v@.subrange(a as int, b as int)).len());
    }
    if fs.len() < 2 {
        return (true, st.1, st.2);
    }
    let f1 = &fs[1];
    let n = parse_u64(f1, 0, f1.len());
    proof {
        assert(f1@.subrange(0, f1@.len() as int) =~= f1@);
        assert(f1@ == fields(v@.subrange(a as int, b as int))[1]);
    }
    if is_total {
        (false, n, st.2)
    } else {
        (false, st.1, n)
    }
}

/// The total and available memory in kB from a `/proc/meminfo` text (see `meminfo_spec`).
pub fn meminfo_kb(text: &str) -> (r: Option<(u64, u64)>)
    ensures
        r == meminfo_spec(text@),
{
    let v = text::str_chars(text);
    let total_p = text::str_chars("MemTotal:");
    let avail_p = text::str_chars("MemAvailable:");
    let n = v.len();
    let mut st: (bool, Option<u64>, Option<u64>) = (false, None, None);
    let mut start: usize = 0;
    let mut i: usize = 0;
    let ghost mut done: Seq<Seq<char>> = Seq::empty();
    proof {
        assert(v@.take(0) =~= Seq::<char>::empty());
    }
    while i < n
        invariant
            n == v@.len(),
            v@ == text@,
            start <= i <= n,
            total_p@ == "MemTotal:"@,
            avail_p@ == "MemAvailable:"@,
            crate::delta::split_acc(v@.take(i as int)) == (done, v@.subrange(start as int, i as int)),
            st == meminfo_acc(done),
        decreases n - i,
    {
        proof {
            assert(v@.take(i + 1).drop_last() =~= v@.take(i as int));
            assert(v@.take(i + 1).last() == v@[i as int]);
        }
        if v[i] == '\n' {
            st = meminfo_line(&v, start, i, &total_p, &avail_p, st);
            proof {
                let cur = v@.subrange(start as int, i as int);
                assert(done.push(cur).drop_last() =~= done);
                done = done.push(cur);
                assert(v@.subrange(i + 1, i + 1) =~= Seq::<char>::empty());
            }
            start = i + 1;
        } else {
            proof {
                assert(v@.subrange(start as int, i + 1) =~= v@.subrange(start as int, i as int).push(v@[i as int]));
            }
        }
        i = i + 1;
    }
    st = meminfo_line(&v, start, n, &total_p, &avail_p, st);
    proof {
        let cur = v@.subrange(start as int, n as int);
        assert(v@.take(n as int) =~= v@);
        assert(done.push(cur).drop_last() =~= done);
        assert(crate::delta::lines(v@) == done.push(cur));
    }
    if st.0 {
        return None;
    }
    match (st.1, st.2) {
        (Some(t), Some(a)) => Some((t, a)),
        _ => None,
    }
}

/// The first position at or after `k` where `" id"` begins in `s`, or `-1` when there is none.
pub open spec fn find_idle(s: Seq<char>, k: int) -> int
    decreases s.len() - k,
{
    if k < 0 || k + 3 > s.len() {
        -1
    } else if s[k] == ' ' && s[k + 1] == 'i' && s[k + 2] == 'd' {
        k
    } else {
        find_idle(s, k + 1)
    }
}

/// `s` without its trailing commas.
pub open spec fn trim_commas(s: Seq<char>) -> Seq<char>
    decreases s.len(),
{
    if s.len() > 0 && s.last() == ',' {
        trim_commas(s.drop_last())
    } else {
        s
    }
}

/// The idle share in a CPU summary line of `top`: the last white-space separated field
/// before the first `" id"`, without trailing commas; nothing when the line has no `" id"`
/// or no field before it.
pub open spec fn idle_spec(line: Seq<char>) -> Option<Seq<char>> {
    let p = find_idle(line, 0);
    if p < 0 {
        None
    } else {
        let f = fields(line.take(p));
        if f.len() == 0 {
            None
        } else {
            Some(trim_commas(f.last()))
        }
    }
}

/// The idle share field of a CPU summary line of `top` (see `idle_spec`).
pub fn idle_field(line: &str) -> (r: Option<String>)
    ensures
        match r {
            Some(s) => idle_spec(line@) == Some(s@),
            None => idle_spec(line@) is None,
        },
{
    let v = text::str_chars(line);
    let n = v.len();
    let mut k: usize = 0;
    while n >= 3 && k <= n - 3 && !(v[k] == ' ' && v[k + 1] == 'i' && v[k + 2] == 'd')
        invariant
            n == v@.len(),
            v@ == line@,
            k <= n,
            find_idle(v@, 0) == find_idle(v@, k as int),
        decreases n - k,
    {
        k = k + 1;
    }
    if n < 3 || k > n - 3 {
        return None;
    }
    let fs = split_fields(&v, 0, k);
    proof {
        assert(v@.subrange(0, k as int) =~= v@.take(k as int));
        assert(fs@.len() == fields(v@.take(k as int)).len());
    }
    if fs.len() == 0 {
        return None;
    }
    let last = &fs[fs.len() - 1];
    proof {
        assert(last@ == fields(v@.take(k as int)).last());
    }
    let mut m = last.len();
    proof {
        assert(last@.take(m as int) =~= last@);
    }
    while m > 0 && last[m - 1] == ','
        invariant
            m <= last@.len(),
            trim_commas(last@) == trim_commas(last@.take(m as int)),
        decreases m,
    {
        proof {
            assert(last@.take(m as int).drop_last() =~= last@.take(m - 1));
        }
        m = m - 1;
    }
    proof {
        if m > 0 {
            assert(last@.take(m as int).last() == last@[m - 1]);
        }
    }
    let kept = crate::delta::copy_chars(last, 0, m);
    proof {
        assert(last@.subrange(0, m as int) =~= last@.take(m as int));
    }
    Some(text::string_from_chars(&kept))
}

} // verus!
