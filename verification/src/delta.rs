//! Daily access codes for the dashboard: the fallback list and the parser for the text
//! the code service answers with.
use vstd::prelude::*;
use crate::framebuffer;

verus! {

/// One location and its code.
#[derive(Debug, Clone)]
pub struct DeltaPassword {
    pub location: String,
    pub password: String,
}

} // verus!

verus! {

/// The locations and codes shown when the code service cannot be reached.
pub open spec fn fallback_list() -> Seq<(Seq<char>, Seq<char>)> {
    seq![
        ("DAM"@, "5575"@),
        ("GORGE"@, "9879"@),
        ("BAKSH"@, "7180"@),
        ("AEROSPC"@, "3159"@),
        ("PRISON"@, "8777"@),
    ]
}

/// The abstract form of a list of codes: location and code of each, in order.
pub open spec fn entries(v: Seq<DeltaPassword>) -> Seq<(Seq<char>, Seq<char>)> {
    Seq::new(v.len(), |i: int| (v[i].location@, v[i].password@))
}

fn entry(location: &str, password: &str) -> (d: DeltaPassword)
    ensures
        d.location@ == location@,
        d.password@ == password@,
{
    DeltaPassword { location: location.to_owned(), password: password.to_owned() }
}

/// The built-in list of five locations and codes.
pub fn fallback_passwords() -> (v: Vec<DeltaPassword>)
    ensures
        entries(v@) == fallback_list(),
{
    let mut v: Vec<DeltaPassword> = Vec::new();
    v.push(entry("DAM", "5575"));
    v.push(entry("GORGE", "9879"));
    v.push(entry("BAKSH", "7180"));
    v.push(entry("AEROSPC", "3159"));
    v.push(entry("PRISON", "8777"));
    assert(entries(v@) =~= fallback_list());
    v
}

/// Unicode white space, as `char::is_whitespace` defines it.
pub open spec fn is_ws(c: char) -> bool {
    ('\u{9}' <= c && c <= '\u{d}') || c == ' ' || c == '\u{85}' || c == '\u{a0}' || c == '\u{1680}'
        || ('\u{2000}' <= c && c <= '\u{200a}') || c == '\u{2028}' || c == '\u{2029}' || c == '\u{202f}'
        || c == '\u{205f}' || c == '\u{3000}'
}

/// Whether `c` is white space (`char::is_whitespace`).
pub fn is_whitespace(c: char) -> (r: bool)
    ensures
        r == is_ws(c),
{
    ('\u{9}' <= c && c <= '\u{d}') || c == ' ' || c == '\u{85}' || c == '\u{a0}' || c == '\u{1680}'
        || ('\u{2000}' <= c && c <= '\u{200a}') || c == '\u{2028}' || c == '\u{2029}' || c == '\u{202f}'
        || c == '\u{205f}' || c == '\u{3000}'
}

/// `s` without its leading white space.
pub open spec fn trim_start(s: Seq<char>) -> Seq<char>
    decreases s.len(),
{
    if s.len() > 0 && is_ws(s[0]) {
        trim_start(s.drop_first())
    } else {
        s
    }
}

/// `s` without its trailing white space.
pub open spec fn trim_end(s: Seq<char>) -> Seq<char>
    decreases s.len(),
{
    if s.len() > 0 && is_ws(s.last()) {
        trim_end(s.drop_last())
    } else {
        s
    }
}

/// `s` without leading and trailing white space (`str::trim`).
pub open spec fn trim(s: Seq<char>) -> Seq<char> {
    trim_end(trim_start(s))
}

/// The characters `v[a..b]` trimmed, as a range of `v`.
fn trim_range(v: &Vec<char>, a: usize, b: usize) -> (r: (usize, usize))
    requires
        a <= b <= v@.len(),
    ensures
        a <= r.0 <= r.1 <= b,
        v@.subrange(r.0 as int, r.1 as int) == trim(v@.subrange(a as int, b as int)),
{
    let mut s = a;
    while s < b && is_whitespace(v[s])
        invariant
            a <= s <= b,
            b <= v@.len(),
            trim_start(v@.subrange(a as int, b as int)) == trim_start(v@.subrange(s as int, b as int)),
        decreases b - s,
    {
        proof {
            assert(v@.subrange(s as int, b as int).drop_first() =~= v@.subrange(s + 1, b as int));
        }
        s = s + 1;
    }
    let mut e = b;
    proof {
        assert(trim_start(v@.subrange(s as int, b as int)) == v@.subrange(s as int, b as int));
    }
    while e > s && is_whitespace(v[e - 1])
        invariant
            a <= s <= e <= b,
            b <= v@.len(),
            trim(v@.subrange(a as int, b as int)) == trim_end(v@.subrange(s as int, e as int)),
        decreases e - s,
    {
        proof {
            assert(v@.subrange(s as int, e as int).drop_last() =~= v@.subrange(s as int, e - 1));
        }
        e = e - 1;
    }
    proof {
        assert(trim_end(v@.subrange(s as int, e as int)) == v@.subrange(s as int, e as int));
    }
    (s, e)
}

} // verus!

verus! {

/// The prefix of a location line: 地点 and a colon.
pub open spec fn loc_prefix() -> Seq<char> {
    seq!['地', '点', ':']
}

/// The prefix of a code line: 密码 and a colon.
pub open spec fn pw_prefix() -> Seq<char> {
    seq!['密', '码', ':']
}

/// An ASCII decimal digit.
pub open spec fn is_ascii_digit(c: char) -> bool {
    '0' <= c && c <= '9'
}

/// An ASCII letter or digit.
pub open spec fn is_ascii_alnum(c: char) -> bool {
    ('0' <= c && c <= '9') || ('A' <= c && c <= 'Z') || ('a' <= c && c <= 'z')
}

/// The ASCII digits of `s`, in order.
pub open spec fn digits_of(s: Seq<char>) -> Seq<char>
    decreases s.len(),
{
    if s.len() == 0 {
        Seq::empty()
    } else if is_ascii_digit(s.last()) {
        digits_of(s.drop_last()).push(s.last())
    } else {
        digits_of(s.drop_last())
    }
}

/// The ASCII letters and digits of `s`, in order, letters in upper case.
pub open spec fn alnum_upper(s: Seq<char>) -> Seq<char>
    decreases s.len(),
{
    if s.len() == 0 {
        Seq::empty()
    } else if is_ascii_alnum(s.last()) {
        alnum_upper(s.drop_last()).push(crate::render::primitives::ascii_upper(s.last()))
    } else {
        alnum_upper(s.drop_last())
    }
}

/// The short Latin name of a location: the five known map names by table, anything else
/// reduced to its ASCII letters and digits in upper case.
pub open spec fn translit(s: Seq<char>) -> Seq<char> {
    if s == seq!['零', '号', '大', '坝'] { "DAM"@ }
    else if s == seq!['长', '弓', '溪', '谷'] { "GORGE"@ }
    else if s == seq!['巴', '克', '什'] { "BAKSH"@ }
    else if s == seq!['航', '天', '基', '地'] { "AEROSPC"@ }
    else if s == seq!['潮', '汐', '监', '狱'] { "PRISON"@ }
    else { alnum_upper(s) }
}

/// Index of the first `c` in `s`, or -1.
pub open spec fn index_of(s: Seq<char>, c: char) -> int
    decreases s.len(),
{
    if s.len() == 0 {
        -1
    } else if index_of(s.drop_last(), c) >= 0 {
        index_of(s.drop_last(), c)
    } else if s.last() == c {
        s.len() - 1
    } else {
        -1
    }
}

/// The location name of a raw location: the text between the first 【 and the next 】 when
/// both are there, otherwise the whole text; then transliterated.
pub open spec fn normalize(raw: Seq<char>) -> Seq<char> {
    let s = index_of(raw, '【');
    if s >= 0 {
        let e = index_of(raw.skip(s + 1), '】');
        if e >= 0 {
            translit(raw.subrange(s + 1, s + 1 + e))
        } else {
            translit(raw)
        }
    } else {
        translit(raw)
    }
}

proof fn lemma_index_of(s: Seq<char>, c: char)
    ensures
        -1 <= index_of(s, c) < s.len(),
        index_of(s, c) >= 0 ==> s[index_of(s, c)] == c,
        forall|j: int| 0 <= j < s.len() && (index_of(s, c) < 0 || j < index_of(s, c)) ==> s[j] != c,
    decreases s.len(),
{
    if s.len() > 0 {
        lemma_index_of(s.drop_last(), c);
        assert forall|j: int| 0 <= j < s.len() - 1 implies s.drop_last()[j] == s[j] by {}
    }
}

/// Index of the first `c` in `v[from..]`, as an index of `v`, or `None`.
fn find_char(v: &Vec<char>, from: usize, c: char) -> (r: Option<usize>)
    requires
        from <= v@.len(),
    ensures
        match r {
            Some(i) => from <= i < v@.len() && i - from == index_of(v@.skip(from as int), c),
            None => index_of(v@.skip(from as int), c) < 0,
        },
{
    let mut i = from;
    while i < v.len()
        invariant
            from <= i <= v@.len(),
            forall|j: int| from <= j < i ==> v@[j] != c,
        decreases v@.len() - i,
    {
        if v[i] == c {
            proof {
                let t = v@.skip(from as int);
                lemma_index_of(t, c);
                let k = index_of(t, c);
                assert(t[i - from] == c);
                if k < 0 || k > i - from {
                    assert(false);
                }
                if k < i - from {
                    assert(t[k] == v@[from + k]);
                }
            }
            return Some(i);
        }
        i = i + 1;
    }
    proof {
        let t = v@.skip(from as int);
        lemma_index_of(t, c);
        let k = index_of(t, c);
        if k >= 0 {
            assert(t[k] == v@[from + k]);
        }
    }
    None
}

/// The characters `v[a..b]`.
pub(crate) fn copy_chars(v: &Vec<char>, a: usize, b: usize) -> (r: Vec<char>)
    requires
        a <= b <= v@.len(),
    ensures
        r@ == v@.subrange(a as int, b as int),
{
    let mut r: Vec<char> = Vec::new();
    let mut i = a;
    while i < b
        invariant
            a <= i <= b,
            b <= v@.len(),
            r@ == v@.subrange(a as int, i as int),
        decreases b - i,
    {
        r.push(v[i]);
        i = i + 1;
        proof {
            assert(r@ =~= v@.subrange(a as int, i as int));
        }
    }
    r
}

/// Whether `v` equals the characters of `s`.
fn chars_eq(v: &Vec<char>, s: &str) -> (r: bool)
    ensures
        r == (v@ == s@),
{
    let w = crate::text::str_chars(s);
    if v.len() != w.len() {
        return false;
    }
    let mut i: usize = 0;
    while i < v.len()
        invariant
            w@ == s@,
            v@.len() == w@.len(),
            i <= v@.len(),
            forall|j: int| 0 <= j < i ==> v@[j] == w@[j],
        decreases v@.len() - i,
    {
        if v[i] != w[i] {
            return false;
        }
        i = i + 1;
    }
    assert(v@ =~= w@);
    true
}

fn alnum_upper_of(v: &Vec<char>) -> (r: Vec<char>)
    ensures
        r@ == alnum_upper(v@),
{
    let mut r: Vec<char> = Vec::new();
    let mut i: usize = 0;
    while i < v.len()
        invariant
            i <= v@.len(),
            r@ == alnum_upper(v@.take(i as int)),
        decreases v@.len() - i,
    {
        let c = v[i];
        proof {
            assert(v@.take(i + 1).drop_last() =~= v@.take(i as int));
            assert(v@.take(i + 1).last() == c);
        }
        if ('0' <= c && c <= '9') || ('A' <= c && c <= 'Z') || ('a' <= c && c <= 'z') {
            r.push(crate::render::primitives::to_ascii_upper(c));
        }
        i = i + 1;
    }
    proof {
        assert(v@.take(v@.len() as int) =~= v@);
    }
    r
}

fn translit_chars(v: &Vec<char>) -> (r: String)
    ensures
        r@ == translit(v@),
{
    proof {
        reveal_strlit("零号大坝");
        reveal_strlit("长弓溪谷");
        reveal_strlit("巴克什");
        reveal_strlit("航天基地");
        reveal_strlit("潮汐监狱");
        assert("零号大坝"@ =~= seq!['零', '号', '大', '坝']);
        assert("长弓溪谷"@ =~= seq!['长', '弓', '溪', '谷']);
        assert("巴克什"@ =~= seq!['巴', '克', '什']);
        assert("航天基地"@ =~= seq!['航', '天', '基', '地']);
        assert("潮汐监狱"@ =~= seq!['潮', '汐', '监', '狱']);
    }
    if chars_eq(v, "零号大坝") {
        "DAM".to_owned()
    } else if chars_eq(v, "长弓溪谷") {
        "GORGE".to_owned()
    } else if chars_eq(v, "巴克什") {
        "BAKSH".to_owned()
    } else if chars_eq(v, "航天基地") {
        "AEROSPC".to_owned()
    } else if chars_eq(v, "潮汐监狱") {
        "PRISON".to_owned()
    } else {
        let u = alnum_upper_of(v);
        crate::text::string_from_chars(&u)
    }
}

/// The short Latin name of a location name.
pub fn translit_location(s: &str) -> (r: String)
    ensures
        r@ == translit(s@),
{
    let v = crate::text::str_chars(s);
    translit_chars(&v)
}

fn normalize_chars(v: &Vec<char>) -> (r: String)
    ensures
        r@ == normalize(v@),
{
    let _n = v.len();
    match find_char(v, 0, '【') {
        Some(s) => {
            proof {
                assert(v@.skip(0) =~= v@);
            }
            match find_char(v, s + 1, '】') {
                Some(e) => {
                    let inner = copy_chars(v, s + 1, e);
                    translit_chars(&inner)
                },
                None => translit_chars(v),
            }
        },
        None => {
            proof {
                assert(v@.skip(0) =~= v@);
            }
            translit_chars(v)
        },
    }
}

/// The location name of a raw location text.
pub fn normalize_location(raw: &str) -> (r: String)
    ensures
        r@ == normalize(raw@),
{
    let v = crate::text::str_chars(raw);
    normalize_chars(&v)
}

} // verus!

verus! {

/// Splitting a text at line feeds, as far as it goes: the finished lines and the line still
/// being read.
pub open spec fn split_acc(s: Seq<char>) -> (Seq<Seq<char>>, Seq<char>)
    decreases s.len(),
{
    if s.len() == 0 {
        (Seq::empty(), Seq::empty())
    } else {
        let (done, cur) = split_acc(s.drop_last());
        if s.last() == '\n' {
            (done.push(cur), Seq::empty())
        } else {
            (done, cur.push(s.last()))
        }
    }
}

/// The lines of a text, split at line feeds (the part after the last line feed included).
pub open spec fn lines(s: Seq<char>) -> Seq<Seq<char>> {
    split_acc(s).0.push(split_acc(s).1)
}

/// The location a line gives: a trimmed line that starts with the location prefix gives
/// the normalized, trimmed rest.
pub open spec fn loc_entry(line: Seq<char>) -> Option<Seq<char>> {
    let t = trim(line);
    if t.len() >= 3 && t.take(3) == loc_prefix() {
        Some(normalize(trim(t.skip(3))))
    } else {
        None
    }
}

/// The code a line gives: a trimmed line that starts with the code prefix gives the ASCII
/// digits of the rest, when there are any.
pub open spec fn pw_entry(line: Seq<char>) -> Option<Seq<char>> {
    let t = trim(line);
    if t.len() >= 3 && t.take(3) == pw_prefix() && digits_of(t.skip(3)).len() > 0 {
        Some(digits_of(t.skip(3)))
    } else {
        None
    }
}

/// The locations the lines give, in order.
pub open spec fn collect_locs(ls: Seq<Seq<char>>) -> Seq<Seq<char>>
    decreases ls.len(),
{
    if ls.len() == 0 {
        Seq::empty()
    } else {
        match loc_entry(ls.last()) {
            Some(l) => collect_locs(ls.drop_last()).push(l),
            None => collect_locs(ls.drop_last()),
        }
    }
}

/// The codes the lines give, in order.
pub open spec fn collect_pws(ls: Seq<Seq<char>>) -> Seq<Seq<char>>
    decreases ls.len(),
{
    if ls.len() == 0 {
        Seq::empty()
    } else {
        match pw_entry(ls.last()) {
            Some(p) => collect_pws(ls.drop_last()).push(p),
            None => collect_pws(ls.drop_last()),
        }
    }
}

/// What the parser makes of a reply: the i-th location paired with the i-th code, for as
/// many pairs as both lists have, at most five.
pub open spec fn parse_spec(body: Seq<char>) -> Seq<(Seq<char>, Seq<char>)> {
    let ls = lines(body);
    let locs = collect_locs(ls);
    let pws = collect_pws(ls);
    let n = framebuffer::min_int(framebuffer::min_int(locs.len() as int, pws.len() as int), 5);
    Seq::new(n as nat, |i: int| (locs[i], pws[i]))
}

fn has_prefix(v: &Vec<char>, a: usize, b: usize, p0: char, p1: char, p2: char) -> (r: bool)
    requires
        a <= b <= v@.len(),
    ensures
        r == (b - a >= 3 && v@.subrange(a as int, b as int).take(3) == seq![p0, p1, p2]),
{
    if b - a >= 3 && v[a] == p0 && v[a + 1] == p1 && v[a + 2] == p2 {
        assert(v@.subrange(a as int, b as int).take(3) =~= seq![p0, p1, p2]);
        true
    } else {
        proof {
            if b - a >= 3 && v@.subrange(a as int, b as int).take(3) == seq![p0, p1, p2] {
                assert(v@.subrange(a as int, b as int).take(3)[0] == v@[a as int]);
                assert(v@.subrange(a as int, b as int).take(3)[1] == v@[a + 1]);
                assert(v@.subrange(a as int, b as int).take(3)[2] == v@[a + 2]);
            }
        }
        false
    }
}

fn digits_in(v: &Vec<char>, a: usize, b: usize) -> (r: Vec<char>)
    requires
        a <= b <= v@.len(),
    ensures
        r@ == digits_of(v@.subrange(a as int, b as int)),
{
    let mut r: Vec<char> = Vec::new();
    let mut i = a;
    while i < b
        invariant
            a <= i <= b,
            b <= v@.len(),
            r@ == digits_of(v@.subrange(a as int, i as int)),
        decreases b - i,
    {
        let c = v[i];
        proof {
            assert(v@.subrange(a as int, i + 1).drop_last() =~= v@.subrange(a as int, i as int));
        }
        if '0' <= c && c <= '9' {
            r.push(c);
        }
        i = i + 1;
    }
    r
}

/// Reads one line `v[a..b]`, adding what it gives to the locations or codes.
fn read_line(v: &Vec<char>, a: usize, b: usize, locs: &mut Vec<String>, pws: &mut Vec<String>)
    requires
        a <= b <= v@.len(),
    ensures
        final(locs)@.map_values(|s: String| s@) == (match loc_entry(v@.subrange(a as int, b as int)) {
            Some(l) => old(locs)@.map_values(|s: String| s@).push(l),
            None => old(locs)@.map_values(|s: String| s@),
        }),
        final(pws)@.map_values(|s: String| s@) == (match pw_entry(v@.subrange(a as int, b as int)) {
            Some(p) => old(pws)@.map_values(|s: String| s@).push(p),
            None => old(pws)@.map_values(|s: String| s@),
        }),
{
    let ghost line = v@.subrange(a as int, b as int);
    let (s, e) = trim_range(v, a, b);
    let ghost t = v@.subrange(s as int, e as int);
    if has_prefix(v, s, e, '地', '点', ':') {
        let (rs, re) = trim_range(v, s + 3, e);
        proof {
            assert(t.skip(3) =~= v@.subrange(s + 3, e as int));
        }
        let rest = copy_chars(v, rs, re);
        let name = normalize_chars(&rest);
        let ghost before = locs@;
        locs.push(name);
        proof {
            assert(locs@.map_values(|s: String| s@) =~= before.map_values(|s: String| s@).push(name@));
            assert(!(t.take(3) == pw_prefix())) by {
                assert(t.take(3)[0] == '地');
            }
        }
    } else if has_prefix(v, s, e, '密', '码', ':') {
        proof {
            assert(t.skip(3) =~= v@.subrange(s + 3, e as int));
        }
        let digits = digits_in(v, s + 3, e);
        if digits.len() > 0 {
            let code = crate::text::string_from_chars(&digits);
            let ghost before = pws@;
            pws.push(code);
            proof {
                assert(pws@.map_values(|s: String| s@) =~= before.map_values(|s: String| s@).push(code@));
            }
        }
    }
}

/// Reads the reply of the code service: lines `地点:<location>` and `密码:<code>` (after
/// trimming) give locations and codes, which are paired in order, at most five pairs.
pub fn parse_passwords(body: &str) -> (r: Vec<DeltaPassword>)
    ensures
        entries(r@) == parse_spec(body@),
{
    let v = crate::text::str_chars(body);
    let n = v.len();
    let mut locs: Vec<String> = Vec::new();
    let mut pws: Vec<String> = Vec::new();
    let mut start: usize = 0;
    let mut i: usize = 0;
    let ghost mut done: Seq<Seq<char>> = Seq::empty();
    proof {
        assert(v@.take(0) =~= Seq::<char>::empty());
        assert(locs@.map_values(|s: String| s@) =~= Seq::<Seq<char>>::empty());
        assert(pws@.map_values(|s: String| s@) =~= Seq::<Seq<char>>::empty());
    }
    while i < n
        invariant
            n == v@.len(),
            v@ == body@,
            start <= i <= n,
            split_acc(v@.take(i as int)) == (done, v@.subrange(start as int, i as int)),
            locs@.map_values(|s: String| s@) == collect_locs(done),
            pws@.map_values(|s: String| s@) == collect_pws(done),
        decreases n - i,
    {
        proof {
            assert(v@.take(i + 1).drop_last() =~= v@.take(i as int));
            assert(v@.take(i + 1).last() == v@[i as int]);
        }
        if v[i] == '\n' {
            read_line(&v, start, i, &mut locs, &mut pws);
            proof {
                let cur = v@.subrange(start as int, i as int);
                assert(done.push(cur).drop_last() =~= done);
                done = done.push(cur);
                assert(v@.subrange(i + 1, i + 1) =~= Seq::<char>::empty());
            }
            start = i + 1;
        } else {
            proof {
                assert(v@.subrange(start as int, i + 1) =~= v@.subrange(start as int, i as int).push(v@[i as int]));
            }
        }
        i = i + 1;
    }
    read_line(&v, start, n, &mut locs, &mut pws);
    proof {
        let cur = v@.subrange(start as int, n as int);
        assert(v@.take(n as int) =~= v@);
        assert(done.push(cur).drop_last() =~= done);
        assert(lines(v@) == done.push(cur));
    }
    let ghost ls = lines(v@);
    let count0 = if locs.len() < pws.len() { locs.len() } else { pws.len() };
    let count = if count0 < 5 { count0 } else { 5 };
    let mut r: Vec<DeltaPassword> = Vec::new();
    let mut k: usize = 0;
    while k < count
        invariant
            k <= count,
            count == framebuffer::min_int(framebuffer::min_int(collect_locs(ls).len() as int, collect_pws(ls).len() as int), 5),
            locs@.map_values(|s: String| s@) == collect_locs(ls),
            pws@.map_values(|s: String| s@) == collect_pws(ls),
            r@.len() == k,
            forall|j: int| 0 <= j < k ==> (#[trigger] r@[j]).location@ == collect_locs(ls)[j] && r@[j].password@ == collect_pws(ls)[j],
        decreases count - k,
    {
        proof {
            assert(locs@.map_values(|s: String| s@)[k as int] == locs@[k as int]@);
            assert(pws@.map_values(|s: String| s@)[k as int] == pws@[k as int]@);
        }
        r.push(DeltaPassword { location: locs[k].clone(), password: pws[k].clone() });
        k = k + 1;
    }
    assert(entries(r@) =~= parse_spec(body@));
    r
}

} // verus!

verus! {

/// The characters of `s` all have a glyph in the 5x7 font.
pub open spec fn drawable(s: Seq<char>) -> bool {
    forall|i: int| 0 <= i < s.len() ==> (#[trigger] crate::render::font5x7::glyph_rows(s[i])) is Some
}

proof fn lemma_digits_drawable(s: Seq<char>)
    ensures
        drawable(digits_of(s)),
        forall|i: int| 0 <= i < digits_of(s).len() ==> is_ascii_digit(#[trigger] digits_of(s)[i]),
    decreases s.len(),
{
    if s.len() > 0 {
        lemma_digits_drawable(s.drop_last());
    }
}

proof fn lemma_alnum_upper_drawable(s: Seq<char>)
    ensures
        drawable(alnum_upper(s)),
    decreases s.len(),
{
    if s.len() > 0 {
        lemma_alnum_upper_drawable(s.drop_last());
        let c = s.last();
        if is_ascii_alnum(c) {
            let u = crate::render::primitives::ascii_upper(c);
            assert(('0' <= u && u <= '9') || ('A' <= u && u <= 'Z')) by {
                if 'a' <= c && c <= 'z' {
                    assert((c as u32) - 32 >= 65 && (c as u32) - 32 <= 90);
                }
            }
            assert(crate::render::font5x7::glyph_rows(u) is Some);
        }
    }
}

/// Law: every location name the parser can produce is drawable: each of its characters has
/// a glyph in the 5x7 font.
pub proof fn lemma_location_drawable(raw: Seq<char>)
    ensures
        drawable(normalize(raw)),
        drawable(translit(raw)),
{
    reveal_strlit("DAM");
    reveal_strlit("GORGE");
    reveal_strlit("BAKSH");
    reveal_strlit("AEROSPC");
    reveal_strlit("PRISON");
    assert forall|s: Seq<char>| #[trigger] drawable(translit(s)) by {
        lemma_alnum_upper_drawable(s);
    }
}

proof fn lemma_collect_pws(ls: Seq<Seq<char>>)
    ensures
        forall|k: int|
            0 <= k < collect_pws(ls).len() ==> (#[trigger] collect_pws(ls)[k]).len() > 0 && drawable(collect_pws(ls)[k])
                && forall|i: int| 0 <= i < collect_pws(ls)[k].len() ==> is_ascii_digit(#[trigger] collect_pws(ls)[k][i]),
    decreases ls.len(),
{
    if ls.len() > 0 {
        lemma_collect_pws(ls.drop_last());
        let t = trim(ls.last());
        lemma_digits_drawable(t.skip(3));
        let prev = collect_pws(ls.drop_last());
        match pw_entry(ls.last()) {
            Some(p) => {
                assert(collect_pws(ls) == prev.push(p));
                assert(p == digits_of(t.skip(3)));
                assert forall|k: int| 0 <= k < collect_pws(ls).len() implies (#[trigger] collect_pws(ls)[k]).len() > 0
                    && drawable(collect_pws(ls)[k]) && forall|i: int| 0 <= i < collect_pws(ls)[k].len() ==> is_ascii_digit(#[trigger] collect_pws(ls)[k][i]) by {
                    if k < prev.len() {
                        assert(collect_pws(ls)[k] == prev[k]);
                    } else {
                        assert(collect_pws(ls)[k] == p);
                    }
                }
            },
            None => {
                assert(collect_pws(ls) == prev);
            },
        }
    }
}

proof fn lemma_collect_locs(ls: Seq<Seq<char>>)
    ensures
        forall|k: int| 0 <= k < collect_locs(ls).len() ==> drawable(#[trigger] collect_locs(ls)[k]),
    decreases ls.len(),
{
    if ls.len() > 0 {
        lemma_collect_locs(ls.drop_last());
        let t = trim(ls.last());
        lemma_location_drawable(trim(t.skip(3)));
        let prev = collect_locs(ls.drop_last());
        match loc_entry(ls.last()) {
            Some(l) => {
                assert(collect_locs(ls) == prev.push(l));
                assert forall|k: int| 0 <= k < collect_locs(ls).len() implies drawable(#[trigger] collect_locs(ls)[k]) by {
                    if k < prev.len() {
                        assert(collect_locs(ls)[k] == prev[k]);
                    } else {
                        assert(collect_locs(ls)[k] == l);
                    }
                }
            },
            None => {
                assert(collect_locs(ls) == prev);
            },
        }
    }
}

/// Law: the parser returns at most five pairs; every code is a non-empty string of ASCII
/// digits; and every location and code can be drawn with the 5x7 font.
pub proof fn lemma_parse_output(body: Seq<char>)
    ensures
        parse_spec(body).len() <= 5,
        forall|k: int|
            0 <= k < parse_spec(body).len() ==> {
                let (loc, pw) = #[trigger] parse_spec(body)[k];
                &&& pw.len() > 0
                &&& forall|i: int| 0 <= i < pw.len() ==> is_ascii_digit(#[trigger] pw[i])
                &&& drawable(loc)
                &&& drawable(pw)
            },
{
    let ls = lines(body);
    lemma_collect_pws(ls);
    lemma_collect_locs(ls);
}

} // verus!

verus! {

/// The codes in a reply of the code service, or `None` when the reply holds no pair of a
/// location and a code.
pub fn codes_from_reply(body: &str) -> (r: Option<Vec<DeltaPassword>>)
    ensures
        match r {
            Some(v) => entries(v@) == parse_spec(body@) && v@.len() > 0,
            None => parse_spec(body@).len() == 0,
        },
{
    let parsed = parse_passwords(body);
    if parsed.len() == 0 {
        None
    } else {
        Some(parsed)
    }
}

} // verus!
