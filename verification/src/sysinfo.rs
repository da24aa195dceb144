use vstd::prelude::*;
use crate::text::{
    all_digits, decimal, digits_value, lead_by, lemma_decimal_digits, lemma_split_after_sep,
    law_parse_undoes_decimal, lemma_one_word, lemma_split_whole, lemma_words_concat, trail_by, unsigned_body, is_ws,
    Sep, split_by, split_ranges, string_of_range, trim, trim_by, trim_end_by, trim_end_range,
    trim_range, trim_range_by, chars_of, line_ranges, lines, parse_i64_range, parse_signed, parse_u64_range,
    parse_unsigned, range_starts_with, ranges_are, starts_with, word_at, word_at_range, word_ranges,
    words,
};

verus! {

/// The charset name that a Windows console code page stands for.
pub open spec fn spec_charset(cp: u32) -> Seq<char> {
    if cp == 437 { "CP437"@ }
    else if cp == 850 { "CP850"@ }
    else if cp == 866 { "CP866"@ }
    else if cp == 874 { "x-windows-874"@ }
    else if cp == 932 { "Shift_JIS"@ }
    else if cp == 936 { "GBK"@ }
    else if cp == 949 { "EUC-KR"@ }
    else if cp == 950 { "Big5"@ }
    else if cp == 1250 { "windows-1250"@ }
    else if cp == 1251 { "windows-1251"@ }
    else if cp == 1252 { "windows-1252"@ }
    else if cp == 1253 { "windows-1253"@ }
    else if cp == 1254 { "windows-1254"@ }
    else if cp == 1255 { "windows-1255"@ }
    else if cp == 1256 { "windows-1256"@ }
    else if cp == 1257 { "windows-1257"@ }
    else if cp == 1258 { "windows-1258"@ }
    else { "UTF-8"@ }
}

/// Maps a console code page to the name of its charset; unknown pages read as UTF-8.
pub fn codepage_to_charset(cp: u32) -> (r: &'static str)
    ensures
        r@ == spec_charset(cp),
{
    match cp {
        437 => "CP437",
        850 => "CP850",
        866 => "CP866",
        874 => "x-windows-874",
        932 => "Shift_JIS",
        936 => "GBK",
        949 => "EUC-KR",
        950 => "Big5",
        1250 => "windows-1250",
        1251 => "windows-1251",
        1252 => "windows-1252",
        1253 => "windows-1253",
        1254 => "windows-1254",
        1255 => "windows-1255",
        1256 => "windows-1256",
        1257 => "windows-1257",
        1258 => "windows-1258",
        _ => "UTF-8",
    }
}

/// The Windows console code pages and their charsets: OEM United States (437) is CP437,
/// Western European DOS (850) CP850, Cyrillic DOS (866) CP866, Thai (874) x-windows-874,
/// Japanese (932) Shift_JIS, Simplified Chinese (936) GBK, Korean (949) EUC-KR,
/// Traditional Chinese (950) Big5, and the ANSI pages 1250 to 1258 windows-1250 to
/// windows-1258; any other page, UTF-8 (65001) among them, reads as UTF-8.
pub proof fn law_charset_table(cp: u32)
    ensures
        spec_charset(437) == "CP437"@,
        spec_charset(850) == "CP850"@,
        spec_charset(866) == "CP866"@,
        spec_charset(874) == "x-windows-874"@,
        spec_charset(932) == "Shift_JIS"@,
        spec_charset(936) == "GBK"@,
        spec_charset(949) == "EUC-KR"@,
        spec_charset(950) == "Big5"@,
        spec_charset(1250) == "windows-1250"@,
        spec_charset(1251) == "windows-1251"@,
        spec_charset(1252) == "windows-1252"@,
        spec_charset(1253) == "windows-1253"@,
        spec_charset(1254) == "windows-1254"@,
        spec_charset(1255) == "windows-1255"@,
        spec_charset(1256) == "windows-1256"@,
        spec_charset(1257) == "windows-1257"@,
        spec_charset(1258) == "windows-1258"@,
        spec_charset(65001) == "UTF-8"@,
        cp != 437 && cp != 850 && cp != 866 && cp != 874 && cp != 932 && cp != 936 && cp != 949
            && cp != 950 && !(1250 <= cp <= 1258) ==> spec_charset(cp) == "UTF-8"@,
{
}

/// The number after a `/proc/meminfo` label: its second word read as an `i64`, else 0.
pub open spec fn kb_field(line: Seq<char>) -> int {
    match word_at(line, 1) {
        Some(w) => match parse_signed(w, i64::MIN as int, i64::MAX as int) {
            Some(x) => x,
            None => 0,
        },
        None => 0,
    }
}

/// A `/proc/meminfo` line "<label> <n> <unit>" reads as the number `n`.
pub proof fn law_kb_field_reads_the_number(label: Seq<char>, n: nat, unit: Seq<char>)
    requires
        label.len() > 0 && unit.len() > 0,
        forall|i: int| 0 <= i < label.len() ==> !is_ws(#[trigger] label[i]),
        forall|i: int| 0 <= i < unit.len() ==> !is_ws(#[trigger] unit[i]),
        n <= i64::MAX,
    ensures
        kb_field(label + seq![' '] + decimal(n) + seq![' '] + unit) == n,
        kb_field(label + seq![' '] + decimal(n)) == n,
{
    let d = decimal(n);
    lemma_decimal_digits(n);
    assert forall|i: int| 0 <= i < d.len() implies !is_ws(#[trigger] d[i]) by {
        assert(all_digits(d));
    }
    lemma_one_word(label);
    lemma_one_word(d);
    lemma_one_word(unit);
    lemma_words_concat(label, ' ', d);
    let ld = label + seq![' '] + d;
    lemma_words_concat(ld, ' ', unit);
    assert(words(ld) =~= seq![label, d]);
    assert(words(ld + seq![' '] + unit) =~= seq![label, d, unit]);
    law_parse_undoes_decimal(n, i64::MAX as int);
    assert(all_digits(d));
    assert(d[0] != '-');
}

/// The last `MemTotal:` and `MemAvailable:` values among `ls` (0 where there is none).
pub open spec fn meminfo_scan(ls: Seq<Seq<char>>) -> (int, int)
    decreases ls.len(),
{
    if ls.len() == 0 {
        (0, 0)
    } else {
        let (t, a) = meminfo_scan(ls.drop_last());
        let l = ls.last();
        if starts_with(l, "MemTotal:"@) {
            (kb_field(l), a)
        } else if starts_with(l, "MemAvailable:"@) {
            (t, kb_field(l))
        } else {
            (t, a)
        }
    }
}

fn kb_field_of(v: &Vec<char>, lo: usize, hi: usize) -> (r: i64)
    requires
        lo <= hi <= v@.len(),
    ensures
        r == kb_field(v@.subrange(lo as int, hi as int)),
{
    match word_at_range(v, lo, hi, 1) {
        Some((a, b)) => match parse_i64_range(v, a, b) {
            Some(x) => x,
            None => 0,
        },
        None => 0,
    }
}

/// The total and available memory, in kB, that `/proc/meminfo` gives.
pub fn meminfo_kb(contents: &str) -> (r: (i64, i64))
    ensures
        (r.0 as int, r.1 as int) == meminfo_scan(lines(contents@)),
{
    let v = chars_of(contents);
    assert(v@.subrange(0, v@.len() as int) =~= v@);
    let ls = line_ranges(&v, 0, v.len());
    let ghost lv = lines(contents@);
    let total_label = chars_of("MemTotal:");
    let avail_label = chars_of("MemAvailable:");
    let mut total: i64 = 0;
    let mut avail: i64 = 0;
    let mut k: usize = 0;
    assert(lv.take(0) =~= Seq::<Seq<char>>::empty());
    while k < ls.len()
        invariant
            ranges_are(v@, ls@, lv, 0, v@.len() as int),
            total_label@ == "MemTotal:"@,
            avail_label@ == "MemAvailable:"@,
            0 <= k <= ls@.len(),
            (total as int, avail as int) == meminfo_scan(lv.take(k as int)),
        decreases ls@.len() - k,
    {
        let (a, b) = ls[k];
        assert(0 <= ls@[k as int].0 <= ls@[k as int].1 <= v@.len());
        assert(lv.take(k + 1).drop_last() =~= lv.take(k as int));
        assert(lv.take(k + 1).last() == v@.subrange(a as int, b as int));
        if range_starts_with(&v, a, b, &total_label) {
            total = kb_field_of(&v, a, b);
        } else if range_starts_with(&v, a, b, &avail_label) {
            avail = kb_field_of(&v, a, b);
        }
        k = k + 1;
    }
    assert(lv.take(ls@.len() as int) =~= lv);
    (total, avail)
}

/// Total and used memory in bytes from the kB figures, when the total is known (positive).
pub fn memory_from_kb(total_kb: i64, available_kb: i64) -> (r: Option<(i64, i64)>)
    requires
        total_kb > 0 ==> total_kb * 1024 <= i64::MAX,
        total_kb > 0 ==> i64::MIN <= total_kb - available_kb <= i64::MAX,
        total_kb > 0 ==> i64::MIN <= (total_kb - available_kb) * 1024 <= i64::MAX,
    ensures
        r is Some <==> total_kb > 0,
        r matches Some(p) ==> p.0 == total_kb * 1024 && p.1 == (total_kb - available_kb) * 1024,
{
    if total_kb > 0 {
        Some((total_kb * 1024, (total_kb - available_kb) * 1024))
    } else {
        None
    }
}

/// The numbers among `ws` that read as `u64`, in order (`filter_map(parse)`).
pub open spec fn parsed_u64s(ws: Seq<Seq<char>>) -> Seq<u64>
    decreases ws.len(),
{
    if ws.len() == 0 {
        Seq::empty()
    } else {
        let r = parsed_u64s(ws.drop_last());
        match parse_unsigned(ws.last(), u64::MAX as int) {
            Some(x) => r.push(x as u64),
            None => r,
        }
    }
}

/// The first of `ls` that begins with `p`, if any.
pub open spec fn first_starting_with(ls: Seq<Seq<char>>, p: Seq<char>) -> Option<Seq<char>>
    decreases ls.len(),
{
    if ls.len() == 0 {
        None
    } else if starts_with(ls[0], p) {
        Some(ls[0])
    } else {
        first_starting_with(ls.drop_first(), p)
    }
}

/// All but the first word (`skip(1)`).
pub open spec fn after_first(ws: Seq<Seq<char>>) -> Seq<Seq<char>> {
    if ws.len() > 0 { ws.drop_first() } else { ws }
}

proof fn lemma_first_starts(ls: Seq<Seq<char>>, p: Seq<char>)
    ensures
        first_starting_with(ls, p) matches Some(l) ==> starts_with(l, p),
    decreases ls.len(),
{
    if ls.len() > 0 && !starts_with(ls[0], p) {
        lemma_first_starts(ls.drop_first(), p);
    }
}

/// The counters on the aggregate `cpu ` line of `/proc/stat`, if it has one.
pub open spec fn cpu_fields_of(contents: Seq<char>) -> Option<Seq<u64>> {
    match first_starting_with(lines(contents), "cpu "@) {
        Some(l) => Some(parsed_u64s(after_first(words(l)))),
        None => None,
    }
}

/// The first line of `v` that begins with `p`, if any.
fn first_line_with(v: &Vec<char>, p: &Vec<char>) -> (r: Option<(usize, usize)>)
    ensures
        r is Some <==> first_starting_with(lines(v@), p@) is Some,
        r matches Some(q) ==> q.0 <= q.1 <= v@.len()
            && first_starting_with(lines(v@), p@) == Some(v@.subrange(q.0 as int, q.1 as int)),
{
    assert(v@.subrange(0, v@.len() as int) =~= v@);
    let ls = line_ranges(v, 0, v.len());
    let ghost lv = lines(v@);
    let mut k: usize = 0;
    assert(lv.skip(0) =~= lv);
    while k < ls.len()
        invariant
            lv == lines(v@),
            ranges_are(v@, ls@, lv, 0, v@.len() as int),
            0 <= k <= ls@.len(),
            first_starting_with(lv, p@) == first_starting_with(lv.skip(k as int), p@),
        decreases ls@.len() - k,
    {
        let (a, b) = ls[k];
        assert(0 <= ls@[k as int].0 <= ls@[k as int].1 <= v@.len());
        assert(lv.skip(k as int).len() > 0);
        assert(lv.skip(k as int)[0] == v@.subrange(a as int, b as int));
        if range_starts_with(v, a, b, p) {
            assert(first_starting_with(lv.skip(k as int), p@) == Some(lv.skip(k as int)[0]));
            return Some((a, b));
        }
        assert(lv.skip(k as int).drop_first() =~= lv.skip(k + 1));
        k = k + 1;
    }
    None
}

/// The counters on the `cpu ` line of `/proc/stat`: every word after the label that reads
/// as a `u64`.
pub fn cpu_fields(contents: &str) -> (r: Option<Vec<u64>>)
    ensures
        r is Some <==> cpu_fields_of(contents@) is Some,
        r matches Some(f) ==> cpu_fields_of(contents@) == Some(f@),
{
    let v = chars_of(contents);
    let label = chars_of("cpu ");
    match first_line_with(&v, &label) {
        None => None,
        Some((a, b)) => {
            let ws = word_ranges(&v, a, b);
            let ghost wv = words(v@.subrange(a as int, b as int));
            let mut out: Vec<u64> = Vec::new();
            if ws.len() == 0 {
                assert(parsed_u64s(after_first(wv)) =~= Seq::<u64>::empty());
                return Some(out);
            }
            let mut k: usize = 1;
            assert(after_first(wv).take(0) =~= Seq::<Seq<char>>::empty());
            while k < ws.len()
                invariant
                    a <= b <= v@.len(),
                    ranges_are(v@, ws@, wv, a as int, b as int),
                    1 <= k <= ws@.len(),
                    out@ == parsed_u64s(after_first(wv).take(k - 1)),
                decreases ws@.len() - k,
            {
                let (x, y) = ws[k];
                assert(a <= ws@[k as int].0 <= ws@[k as int].1 <= b);
                assert(after_first(wv).take(k as int).drop_last() =~= after_first(wv).take(k - 1));
                assert(after_first(wv).take(k as int).last() == v@.subrange(x as int, y as int));
                match parse_u64_range(&v, x, y) {
                    Some(n) => out.push(n),
                    None => {},
                }
                k = k + 1;
            }
            assert(after_first(wv).take(k - 1) =~= after_first(wv));
            Some(out)
        },
    }
}

pub open spec fn seq_sum(s: Seq<u64>) -> int
    decreases s.len(),
{
    if s.len() == 0 { 0 } else { seq_sum(s.drop_last()) + s.last() }
}

/// Total and idle time from the `cpu ` counters: their sum and the fourth; none when
/// there are fewer than four.
pub fn cpu_times(fields: &Vec<u64>) -> (r: Option<(u64, u64)>)
    requires
        fields@.len() >= 4 ==> seq_sum(fields@) <= u64::MAX,
    ensures
        r is Some <==> fields@.len() >= 4,
        r matches Some(p) ==> p.0 == seq_sum(fields@) && p.1 == fields@[3],
{
    if fields.len() < 4 {
        return None;
    }
    let mut total: u64 = 0;
    let mut i: usize = 0;
    while i < fields.len()
        invariant
            fields@.len() >= 4,
            seq_sum(fields@) <= u64::MAX,
            0 <= i <= fields@.len(),
            total == seq_sum(fields@.take(i as int)),
        decreases fields@.len() - i,
    {
        assert(fields@.take(i + 1).drop_last() =~= fields@.take(i as int));
        proof { lemma_sum_prefix(fields@, i + 1); }
        total = total + fields[i];
        i = i + 1;
    }
    assert(fields@.take(i as int) =~= fields@);
    Some((total, fields[3]))
}

proof fn lemma_sum_prefix(s: Seq<u64>, k: int)
    requires
        0 <= k <= s.len(),
    ensures
        seq_sum(s.take(k)) <= seq_sum(s),
    decreases s.len() - k,
{
    if k < s.len() {
        lemma_sum_prefix(s, k + 1);
        assert(s.take(k + 1).drop_last() =~= s.take(k));
    } else {
        assert(s.take(k) =~= s);
    }
}

/// The busy part of `total` time of which `idle` was idle, none when idle covers it all.
pub open spec fn busy_time(total: int, idle: int) -> int {
    if idle <= total { total - idle } else { 0 }
}

/// Between two samples of (total, idle) time: the busy and total time that passed, when
/// any time passed. Counters that went back count as no time, and idle time beyond the
/// total leaves no busy time, so the busy share is always between 0 and 1.
pub fn cpu_busy(total1: u64, idle1: u64, total2: u64, idle2: u64) -> (r: Option<(u64, u64)>)
    ensures
        r is Some <==> total2 > total1,
        r matches Some(p) ==> p.1 == total2 - total1,
        r matches Some(p) ==> p.0 == busy_time(total2 - total1, if idle2 > idle1 { idle2 - idle1 } else { 0 }),
        r matches Some(p) ==> p.0 <= p.1,
{
    let dt = total2.saturating_sub(total1);
    let di = idle2.saturating_sub(idle1);
    if dt > 0 {
        Some((dt.saturating_sub(di), dt))
    } else {
        None
    }
}

/// The first line that begins with `p` is the earliest such line: line `i` when it does
/// and none before it does, none when no line does.
pub proof fn law_first_line_starting_with(ls: Seq<Seq<char>>, p: Seq<char>)
    ensures
        forall|i: int| 0 <= i < ls.len() && starts_with(#[trigger] ls[i], p)
            && (forall|j: int| 0 <= j < i ==> !starts_with(#[trigger] ls[j], p))
            ==> first_starting_with(ls, p) == Some(ls[i]),
        no_line_with(ls, p) ==> first_starting_with(ls, p) is None,
    decreases ls.len(),
{
    if ls.len() > 0 {
        let rest = ls.drop_first();
        law_first_line_starting_with(rest, p);
        assert forall|i: int| 0 <= i < ls.len() && starts_with(#[trigger] ls[i], p)
            && (forall|j: int| 0 <= j < i ==> !starts_with(#[trigger] ls[j], p))
            implies first_starting_with(ls, p) == Some(ls[i]) by {
            if i > 0 {
                assert(!starts_with(ls[0], p));
                assert(rest[i - 1] == ls[i]);
                assert forall|j: int| 0 <= j < i - 1 implies !starts_with(#[trigger] rest[j], p) by {
                    assert(rest[j] == ls[j + 1]);
                }
            }
        }
        if no_line_with(ls, p) {
            assert(!starts_with(ls[0], p));
            assert forall|j: int| 0 <= j < rest.len() implies !starts_with(#[trigger] rest[j], p) by {
                assert(rest[j] == ls[j + 1]);
            }
        }
    }
}

/// The OS name is the value of the first `PRETTY_NAME=` line of `/etc/os-release`: written
/// as `PRETTY_NAME="<name>"`, it is `<name>` without its quotes; with no such line, or no
/// file, it is "Linux".
pub proof fn law_os_name_from_pretty_name(c: Seq<char>, i: int, name: Seq<char>)
    requires
        0 <= i < lines(c).len(),
        lines(c)[i] == "PRETTY_NAME="@ + seq!['"'] + name + seq!['"'],
        name.len() > 0,
        name[0] != '"',
        name.last() != '"',
        forall|j: int| 0 <= j < i ==> !starts_with(#[trigger] lines(c)[j], "PRETTY_NAME="@),
    ensures
        linux_os_name_of(Some(c)) == name,
{
    reveal_strlit("PRETTY_NAME=");
    let l = lines(c)[i];
    assert(l.take(12) =~= "PRETTY_NAME="@);
    law_first_line_starting_with(lines(c), "PRETTY_NAME="@);
    let q = l.skip(12);
    assert(q =~= seq!['"'] + name + seq!['"']);
    let sep = Sep::Char('"');
    assert(q.drop_first() =~= name + seq!['"']);
    assert((name + seq!['"'])[0] == name[0]);
    assert(q[0] == '"');
    assert(crate::text::lead_by(q.drop_first(), sep) == 0);
    assert(crate::text::lead_by(q, sep) == 1);
    let st = q.skip(1);
    assert(st =~= name + seq!['"']);
    assert(st.drop_last() =~= name);
    assert(name.last() == name[name.len() - 1]);
    assert(crate::text::trail_by(name, sep) == 0);
    assert(crate::text::trail_by(st, sep) == 1);
    assert(st.take(st.len() - 1) =~= name);
}

/// The kernel version is the third word of `/proc/version` ("Linux version <release> ..."),
/// "unknown" when there is no such file.
pub proof fn law_kernel_version_is_third_word(a: Seq<char>, b: Seq<char>, v: Seq<char>, rest: Seq<char>)
    requires
        a.len() > 0 && b.len() > 0 && v.len() > 0,
        forall|i: int| 0 <= i < a.len() ==> !is_ws(#[trigger] a[i]),
        forall|i: int| 0 <= i < b.len() ==> !is_ws(#[trigger] b[i]),
        forall|i: int| 0 <= i < v.len() ==> !is_ws(#[trigger] v[i]),
    ensures
        kernel_version_of(Some(a + seq![' '] + b + seq![' '] + v)) == v,
        kernel_version_of(Some(a + seq![' '] + b + seq![' '] + v + seq![' '] + rest)) == v,
        kernel_version_of(None) == "unknown"@,
{
    lemma_one_word(a);
    lemma_one_word(b);
    lemma_one_word(v);
    lemma_words_concat(a, ' ', b);
    let ab = a + seq![' '] + b;
    lemma_words_concat(ab, ' ', v);
    let abv = ab + seq![' '] + v;
    lemma_words_concat(abv, ' ', rest);
    assert(words(ab) =~= seq![a, b]);
    assert(words(abv) =~= seq![a, b, v]);
    assert(words(abv + seq![' '] + rest)[2] == v);
}

/// The OS name without an `/etc/os-release` line for it is "Linux".
pub proof fn law_os_name_defaults_to_linux(c: Option<Seq<char>>)
    requires
        c matches Some(t) ==> no_line_with(lines(t), "PRETTY_NAME="@),
    ensures
        linux_os_name_of(c) == "Linux"@,
{
    if let Some(t) = c {
        law_first_line_starting_with(lines(t), "PRETTY_NAME="@);
    }
}

/// The name `/etc/os-release` gives: the first `PRETTY_NAME=` line's value without its
/// quotes, else "Linux".
pub open spec fn linux_os_name_of(contents: Option<Seq<char>>) -> Seq<char> {
    match contents {
        Some(c) => match first_starting_with(lines(c), "PRETTY_NAME="@) {
            Some(l) => trim_by(l.skip(12), Sep::Char('"')),
            None => "Linux"@,
        },
        None => "Linux"@,
    }
}

/// The OS name on Linux, from the text of `/etc/os-release` when it could be read.
pub fn linux_os_name(contents: Option<&str>) -> (r: String)
    ensures
        r@ == linux_os_name_of(match contents { Some(c) => Some(c@), None => None }),
{
    match contents {
        None => String::from_str("Linux"),
        Some(c) => {
            let v = chars_of(c);
            let label = chars_of("PRETTY_NAME=");
            proof { reveal_strlit("PRETTY_NAME="); }
            match first_line_with(&v, &label) {
                None => String::from_str("Linux"),
                Some((a, b)) => {
                    proof { lemma_first_starts(lines(v@), label@); }
                    assert(b - a >= 12);
                    assert(v@.subrange(a as int, b as int).skip(12) =~= v@.subrange(a + 12, b as int));
                    let (x, y) = trim_range_by(&v, a + 12, b, Sep::Char('"'));
                    string_of_range(&v, x, y)
                },
            }
        },
    }
}

/// The kernel version `/proc/version` gives: its third word, else "unknown".
pub open spec fn kernel_version_of(contents: Option<Seq<char>>) -> Seq<char> {
    match contents {
        Some(c) => match word_at(c, 2) {
            Some(w) => w,
            None => "unknown"@,
        },
        None => "unknown"@,
    }
}

/// The kernel version on Linux, from the text of `/proc/version` when it could be read.
pub fn kernel_version(contents: Option<&str>) -> (r: String)
    ensures
        r@ == kernel_version_of(match contents { Some(c) => Some(c@), None => None }),
{
    match contents {
        None => String::from_str("unknown"),
        Some(c) => {
            let v = chars_of(c);
            assert(v@.subrange(0, v@.len() as int) =~= v@);
            match word_at_range(&v, 0, v.len(), 2) {
                Some((a, b)) => string_of_range(&v, a, b),
                None => String::from_str("unknown"),
            }
        },
    }
}

/// A command's trimmed output when it ran successfully, else `fallback`.
pub fn trimmed_or(output: Option<&str>, fallback: &str) -> (r: String)
    ensures
        r@ == match output { Some(o) => trim(o@), None => fallback@ },
{
    match output {
        Some(o) => {
            let v = chars_of(o);
            assert(v@.subrange(0, v@.len() as int) =~= v@);
            let (a, b) = trim_range(&v, 0, v.len());
            string_of_range(&v, a, b)
        },
        None => String::from_str(fallback),
    }
}

/// The OS name on macOS: "macOS " and the trimmed output of `sw_vers -productVersion`
/// when it ran successfully, else "macOS".
pub fn macos_os_name(output: Option<&str>) -> (r: String)
    ensures
        r@ == match output { Some(o) => "macOS "@ + trim(o@), None => "macOS"@ },
{
    match output {
        Some(o) => {
            let mut r = String::from_str("macOS ");
            let t = trimmed_or(Some(o), "");
            r.append(t.as_str());
            r
        },
        None => String::from_str("macOS"),
    }
}

/// A number printed by `sysctl -n`, trimmed, or `fallback` when there is none.
pub fn sysctl_number(output: Option<&str>, fallback: i64) -> (r: i64)
    ensures
        r as int == match output {
            Some(o) => match parse_signed(trim(o@), i64::MIN as int, i64::MAX as int) {
                Some(x) => x,
                None => fallback as int,
            },
            None => fallback as int,
        },
{
    match output {
        Some(o) => {
            let v = chars_of(o);
            assert(v@.subrange(0, v@.len() as int) =~= v@);
            let (a, b) = trim_range(&v, 0, v.len());
            match parse_i64_range(&v, a, b) {
                Some(x) => x,
                None => fallback,
            }
        },
        None => fallback,
    }
}

/// The number on a `vm_stat` line: the text after its first `:`, trimmed, without
/// trailing dots, read as an `i64`.
pub open spec fn vm_stat_value(line: Seq<char>) -> Option<int> {
    let parts = split_by(line, Sep::Char(':'));
    if parts.len() > 1 {
        parse_signed(trim_end_by(trim(parts[1]), Sep::Char('.')), i64::MIN as int, i64::MAX as int)
    } else {
        None
    }
}

/// `k` spaces.
pub open spec fn spaces(k: nat) -> Seq<char> {
    Seq::new(k, |i: int| ' ')
}

/// `m` dots.
pub open spec fn dots(m: nat) -> Seq<char> {
    Seq::new(m, |i: int| '.')
}

proof fn lemma_lead_spaces(k: nat, t: Seq<char>)
    ensures
        lead_by(spaces(k) + t, Sep::Ws) == k + lead_by(t, Sep::Ws),
    decreases k,
{
    if k > 0 {
        lemma_lead_spaces((k - 1) as nat, t);
        assert((spaces(k) + t).drop_first() =~= spaces((k - 1) as nat) + t);
        assert((spaces(k) + t)[0] == ' ');
    } else {
        assert(spaces(k) + t =~= t);
    }
}

proof fn lemma_trail_dots(t: Seq<char>, m: nat)
    ensures
        trail_by(t + dots(m), Sep::Char('.')) == m + trail_by(t, Sep::Char('.')),
    decreases m,
{
    if m > 0 {
        lemma_trail_dots(t, (m - 1) as nat);
        assert((t + dots(m)).drop_last() =~= t + dots((m - 1) as nat));
        assert((t + dots(m)).last() == '.');
    } else {
        assert(t + dots(m) =~= t);
    }
}

/// A `vm_stat` line reads as the number written after its label's colon, whatever spaces
/// stand before the number and however many dots after it.
pub proof fn law_vm_stat_value_reads_the_number(label: Seq<char>, k: nat, n: nat, m: nat)
    requires
        !label.contains(':'),
        n <= i64::MAX,
    ensures
        vm_stat_value(label + seq![':'] + spaces(k) + decimal(n) + dots(m)) == Some(n as int),
{
    let d = decimal(n);
    lemma_decimal_digits(n);
    let body = d + dots(m);
    let rest = spaces(k) + body;
    let line = label + seq![':'] + spaces(k) + d + dots(m);
    assert(line =~= label + seq![':'] + rest);
    assert(!rest.contains(':')) by {
        if rest.contains(':') {
            let w = choose|w: int| 0 <= w < rest.len() && rest[w] == ':';
            if w >= k && w < k + d.len() {
                assert(rest[w] == d[w - k]);
                assert(all_digits(d));
            }
        }
    }
    lemma_split_whole(label, ':');
    lemma_split_after_sep(label, ':', rest);
    let parts = split_by(line, Sep::Char(':'));
    assert(parts =~= seq![label, rest]);
    // Leading spaces go, and nothing trails: the body stays.
    assert(body[0] == d[0]);
    assert(all_digits(d));
    assert(lead_by(body, Sep::Ws) == 0);
    lemma_lead_spaces(k, body);
    assert(rest.skip(k as int) =~= body);
    if m > 0 {
        assert(body.last() == '.');
    } else {
        assert(body.last() == d.last());
        assert(d.last() == d[d.len() - 1]);
    }
    assert(trail_by(body, Sep::Ws) == 0);
    assert(body.take(body.len() as int) =~= body);
    assert(trim(rest) == body);
    // Trailing dots go.
    assert(d.last() == d[d.len() - 1]);
    assert(trail_by(d, Sep::Char('.')) == 0);
    lemma_trail_dots(d, m);
    assert(body.take(body.len() - m) =~= d);
    assert(trim_end_by(body, Sep::Char('.')) == d);
    assert(unsigned_body(d) == d);
}

pub open spec fn value_or_zero(x: Option<int>) -> int {
    match x {
        Some(v) => v,
        None => 0,
    }
}

/// The last active, wired and compressed page counts among the lines of `vm_stat`.
pub open spec fn vm_stat_scan(ls: Seq<Seq<char>>) -> (int, int, int)
    decreases ls.len(),
{
    if ls.len() == 0 {
        (0, 0, 0)
    } else {
        let (a, w, c) = vm_stat_scan(ls.drop_last());
        let l = ls.last();
        if starts_with(l, "Pages active"@) {
            (value_or_zero(vm_stat_value(l)), w, c)
        } else if starts_with(l, "Pages wired"@) {
            (a, value_or_zero(vm_stat_value(l)), c)
        } else if starts_with(l, "Pages occupied by compressor"@) {
            (a, w, value_or_zero(vm_stat_value(l)))
        } else {
            (a, w, c)
        }
    }
}

/// Line `i` is the last of `ls` that begins with `label`.
pub open spec fn last_line_with(ls: Seq<Seq<char>>, label: Seq<char>, i: int) -> bool {
    &&& 0 <= i < ls.len()
    &&& starts_with(ls[i], label)
    &&& forall|j: int| i < j < ls.len() ==> !starts_with(#[trigger] ls[j], label)
}

/// No line of `ls` begins with `label`.
pub open spec fn no_line_with(ls: Seq<Seq<char>>, label: Seq<char>) -> bool {
    forall|j: int| 0 <= j < ls.len() ==> !starts_with(#[trigger] ls[j], label)
}

proof fn lemma_vm_labels_differ(l: Seq<char>)
    ensures
        !(starts_with(l, "Pages active"@) && starts_with(l, "Pages wired"@)),
        !(starts_with(l, "Pages active"@) && starts_with(l, "Pages occupied by compressor"@)),
        !(starts_with(l, "Pages wired"@) && starts_with(l, "Pages occupied by compressor"@)),
{
    reveal_strlit("Pages active");
    reveal_strlit("Pages wired");
    reveal_strlit("Pages occupied by compressor");
    if starts_with(l, "Pages active"@) {
        assert(l[6] == l.take(12)[6]);
    }
    if starts_with(l, "Pages wired"@) {
        assert(l[6] == l.take(11)[6]);
    }
    if starts_with(l, "Pages occupied by compressor"@) {
        assert(l[6] == l.take(28)[6]);
    }
}

/// Each page count `vm_stat` reports is the number on the last line that begins with its
/// label ("Pages active", "Pages wired", "Pages occupied by compressor"), or 0 when no line
/// does; lines with any other label, such as "Pages inactive", change none of them.
pub proof fn law_vm_stat_counts_from_last_lines(ls: Seq<Seq<char>>)
    ensures
        forall|i: int| #[trigger] last_line_with(ls, "Pages active"@, i)
            ==> vm_stat_scan(ls).0 == value_or_zero(vm_stat_value(ls[i])),
        forall|i: int| #[trigger] last_line_with(ls, "Pages wired"@, i)
            ==> vm_stat_scan(ls).1 == value_or_zero(vm_stat_value(ls[i])),
        forall|i: int| #[trigger] last_line_with(ls, "Pages occupied by compressor"@, i)
            ==> vm_stat_scan(ls).2 == value_or_zero(vm_stat_value(ls[i])),
        no_line_with(ls, "Pages active"@) ==> vm_stat_scan(ls).0 == 0,
        no_line_with(ls, "Pages wired"@) ==> vm_stat_scan(ls).1 == 0,
        no_line_with(ls, "Pages occupied by compressor"@) ==> vm_stat_scan(ls).2 == 0,
    decreases ls.len(),
{
    if ls.len() > 0 {
        let init = ls.drop_last();
        let l = ls.last();
        let n = ls.len() - 1;
        law_vm_stat_counts_from_last_lines(init);
        lemma_vm_labels_differ(l);
        assert(ls[n] == l);
        assert forall|i: int, label: Seq<char>| i < n && #[trigger] last_line_with(ls, label, i)
            implies last_line_with(init, label, i) && !starts_with(l, label) by {
            assert(init[i] == ls[i]);
            assert forall|j: int| i < j < init.len() implies !starts_with(#[trigger] init[j], label) by {
                assert(init[j] == ls[j]);
            }
        }
        assert forall|label: Seq<char>| #[trigger] no_line_with(ls, label)
            implies no_line_with(init, label) && !starts_with(l, label) by {
            assert forall|j: int| 0 <= j < init.len() implies !starts_with(#[trigger] init[j], label) by {
                assert(init[j] == ls[j]);
            }
        }
        assert forall|i: int, label: Seq<char>| #[trigger] last_line_with(ls, label, i) implies i == n
            || (i < n && last_line_with(init, label, i)) by {}
    }
}

proof fn lemma_meminfo_labels_differ(l: Seq<char>)
    ensures
        !(starts_with(l, "MemTotal:"@) && starts_with(l, "MemAvailable:"@)),
{
    reveal_strlit("MemTotal:");
    reveal_strlit("MemAvailable:");
    if starts_with(l, "MemTotal:"@) {
        assert(l[3] == l.take(9)[3]);
    }
    if starts_with(l, "MemAvailable:"@) {
        assert(l[3] == l.take(13)[3]);
    }
}

/// The total and available memory `/proc/meminfo` reports are the numbers on the last
/// lines that begin with "MemTotal:" and "MemAvailable:", or 0 when no line does; other
/// lines, "MemFree:" among them, change neither.
pub proof fn law_meminfo_from_last_lines(ls: Seq<Seq<char>>)
    ensures
        forall|i: int| #[trigger] last_line_with(ls, "MemTotal:"@, i) ==> meminfo_scan(ls).0 == kb_field(ls[i]),
        forall|i: int| #[trigger] last_line_with(ls, "MemAvailable:"@, i) ==> meminfo_scan(ls).1 == kb_field(ls[i]),
        no_line_with(ls, "MemTotal:"@) ==> meminfo_scan(ls).0 == 0,
        no_line_with(ls, "MemAvailable:"@) ==> meminfo_scan(ls).1 == 0,
    decreases ls.len(),
{
    if ls.len() > 0 {
        let init = ls.drop_last();
        let l = ls.last();
        let n = ls.len() - 1;
        law_meminfo_from_last_lines(init);
        lemma_meminfo_labels_differ(l);
        assert(ls[n] == l);
        assert forall|i: int, label: Seq<char>| i < n && #[trigger] last_line_with(ls, label, i)
            implies last_line_with(init, label, i) && !starts_with(l, label) by {
            assert(init[i] == ls[i]);
            assert forall|j: int| i < j < init.len() implies !starts_with(#[trigger] init[j], label) by {
                assert(init[j] == ls[j]);
            }
        }
        assert forall|label: Seq<char>| #[trigger] no_line_with(ls, label)
            implies no_line_with(init, label) && !starts_with(l, label) by {
            assert forall|j: int| 0 <= j < init.len() implies !starts_with(#[trigger] init[j], label) by {
                assert(init[j] == ls[j]);
            }
        }
    }
}

fn vm_stat_value_of(v: &Vec<char>, lo: usize, hi: usize) -> (r: i64)
    requires
        lo <= hi <= v@.len(),
    ensures
        r == value_or_zero(vm_stat_value(v@.subrange(lo as int, hi as int))),
{
    let parts = split_ranges(v, lo, hi, Sep::Char(':'));
    if parts.len() > 1 {
        let (a, b) = parts[1];
        assert(lo <= parts@[1].0 <= parts@[1].1 <= hi);
        let (x, y) = trim_range(v, a, b);
        let z = trim_end_range(v, x, y, Sep::Char('.'));
        match parse_i64_range(v, x, z) {
            Some(n) => n,
            None => 0,
        }
    } else {
        0
    }
}

/// The active, wired and compressed page counts that `vm_stat` prints.
pub fn vm_stat_pages(text: &str) -> (r: (i64, i64, i64))
    ensures
        (r.0 as int, r.1 as int, r.2 as int) == vm_stat_scan(lines(text@)),
{
    let v = chars_of(text);
    assert(v@.subrange(0, v@.len() as int) =~= v@);
    let ls = line_ranges(&v, 0, v.len());
    let ghost lv = lines(text@);
    let l1 = chars_of("Pages active");
    let l2 = chars_of("Pages wired");
    let l3 = chars_of("Pages occupied by compressor");
    let mut active: i64 = 0;
    let mut wired: i64 = 0;
    let mut compressed: i64 = 0;
    let mut k: usize = 0;
    assert(lv.take(0) =~= Seq::<Seq<char>>::empty());
    while k < ls.len()
        invariant
            lv == lines(v@),
            ranges_are(v@, ls@, lv, 0, v@.len() as int),
            l1@ == "Pages active"@,
            l2@ == "Pages wired"@,
            l3@ == "Pages occupied by compressor"@,
            0 <= k <= ls@.len(),
            (active as int, wired as int, compressed as int) == vm_stat_scan(lv.take(k as int)),
        decreases ls@.len() - k,
    {
        let (a, b) = ls[k];
        assert(0 <= ls@[k as int].0 <= ls@[k as int].1 <= v@.len());
        assert(lv.take(k + 1).drop_last() =~= lv.take(k as int));
        assert(lv.take(k + 1).last() == v@.subrange(a as int, b as int));
        if range_starts_with(&v, a, b, &l1) {
            active = vm_stat_value_of(&v, a, b);
        } else if range_starts_with(&v, a, b, &l2) {
            wired = vm_stat_value_of(&v, a, b);
        } else if range_starts_with(&v, a, b, &l3) {
            compressed = vm_stat_value_of(&v, a, b);
        }
        k = k + 1;
    }
    assert(lv.take(ls@.len() as int) =~= lv);
    (active, wired, compressed)
}

/// Memory in use on macOS: the active, wired and compressed pages times the page size.
pub fn macos_used_memory(active: i64, wired: i64, compressed: i64, page_size: i64) -> (r: i64)
    requires
        i64::MIN <= active + wired <= i64::MAX,
        i64::MIN <= active + wired + compressed <= i64::MAX,
        i64::MIN <= (active + wired + compressed) * page_size <= i64::MAX,
    ensures
        r == (active + wired + compressed) * page_size,
{
    (active + wired + compressed) * page_size
}

/// The host name: the `HOSTNAME` variable, else the trimmed `/etc/hostname`, else "unknown".
pub fn choose_hostname(env_value: Option<String>, file_contents: Option<&str>) -> (r: String)
    ensures
        r@ == match env_value {
            Some(h) => h@,
            None => match file_contents { Some(f) => trim(f@), None => "unknown"@ },
        },
{
    match env_value {
        Some(h) => h,
        None => trimmed_or(file_contents, "unknown"),
    }
}

/// The locale: the first of `LC_ALL`, `LC_CTYPE` and `LANG` that is set, else "en_US.UTF-8".
pub fn choose_locale(lc_all: Option<String>, lc_ctype: Option<String>, lang: Option<String>) -> (r: String)
    ensures
        r@ == match (lc_all, lc_ctype, lang) {
            (Some(a), _, _) => a@,
            (None, Some(b), _) => b@,
            (None, None, Some(c)) => c@,
            (None, None, None) => "en_US.UTF-8"@,
        },
{
    match lc_all {
        Some(a) => a,
        None => match lc_ctype {
            Some(b) => b,
            None => match lang {
                Some(c) => c,
                None => String::from_str("en_US.UTF-8"),
            },
        },
    }
}

/// A variable's value, or "unknown" when it is not set.
pub fn value_or_unknown(value: Option<String>) -> (r: String)
    ensures
        r@ == match value { Some(v) => v@, None => "unknown"@ },
{
    match value {
        Some(v) => v,
        None => String::from_str("unknown"),
    }
}

/// Who the agent runs as.
#[derive(Debug)]
pub struct UserInfo {
    pub user_name: String,
    pub home_path: String,
}

/// The user and home directory, each "unknown" when its variable is not set.
pub fn user_info(user: Option<String>, home: Option<String>) -> (r: UserInfo)
    ensures
        r.user_name@ == match user { Some(v) => v@, None => "unknown"@ },
        r.home_path@ == match home { Some(v) => v@, None => "unknown"@ },
{
    UserInfo { user_name: value_or_unknown(user), home_path: value_or_unknown(home) }
}

/// The console charset: the one of the console's code page where there is one (Windows),
/// else UTF-8.
pub fn console_encoding(codepage: Option<u32>) -> (r: String)
    ensures
        r@ == match codepage { Some(cp) => spec_charset(cp), None => "UTF-8"@ },
{
    match codepage {
        Some(cp) => String::from_str(codepage_to_charset(cp)),
        None => String::from_str("UTF-8"),
    }
}

} // verus!
