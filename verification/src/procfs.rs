//! Reading the Linux `/proc` files: a process's `stat` line, `key: value` fields of `status`
//! and `meminfo`, the CPU counters of `/proc/stat`, and command lines.
use vstd::prelude::*;
use crate::number::{i32_of_text, parse_i32, parse_u64, u64_of_text};
use crate::text::{
    chars_of, has_prefix, is_ascii_char, lemma_last_index_before, rfind, rfind_char, split_words,
    starts_with, string_of, trim_chars, trim_ws, words,
};

verus! {

/// The number after the first word of a line (`VmRSS:    1234 kB` gives 1234), or 0 when
/// there is no line, no second word, or the second word is not a number.
pub open spec fn second_number(line: Option<Seq<char>>) -> u64 {
    match line {
        None => 0,
        Some(l) => {
            let ws = words(l);
            if ws.len() >= 2 {
                match u64_of_text(ws[1]) {
                    Some(v) => v,
                    None => 0,
                }
            } else {
                0
            }
        },
    }
}

/// The number after the first word of a line, or 0.
pub fn linux_num(line: Option<&str>) -> (n: u64)
    ensures
        n == second_number(match line {
            Some(l) => Some(l@),
            None => None,
        }),
{
    match line {
        None => 0,
        Some(l) => {
            let ws = split_words(l);
            if ws.len() >= 2 {
                assert(ws.deep_view()[1] == ws@[1]@);
                match parse_u64(ws[1].as_str()) {
                    Some(v) => v,
                    None => 0,
                }
            } else {
                0
            }
        },
    }
}

/// `s` without one trailing carriage return, if it has one.
pub open spec fn strip_cr(s: Seq<char>) -> Seq<char> {
    if s.len() > 0 && s.last() == '\r' {
        s.drop_last()
    } else {
        s
    }
}

/// The state of reading `s` line by line: the lines completed so far, and the line in progress.
pub open spec fn scan_lines(s: Seq<char>) -> (Seq<Seq<char>>, Seq<char>)
    decreases s.len(),
{
    if s.len() == 0 {
        (seq![], seq![])
    } else {
        let (done, cur) = scan_lines(s.drop_last());
        if s.last() == '\n' {
            (done.push(strip_cr(cur)), seq![])
        } else {
            (done, cur.push(s.last()))
        }
    }
}

/// The lines of `s`: ended by `\n` or `\r\n`, the last one without an ending if it is not
/// empty; what `str::lines` yields.
pub open spec fn lines(s: Seq<char>) -> Seq<Seq<char>> {
    let (done, cur) = scan_lines(s);
    if cur.len() == 0 {
        done
    } else {
        done.push(cur)
    }
}

/// The lines of `s`.
pub fn split_lines(s: &str) -> (r: Vec<String>)
    ensures
        r.deep_view() == lines(s@),
{
    let mut done: Vec<String> = Vec::new();
    let mut cur: Vec<char> = Vec::new();
    for c in it: s.chars()
        invariant
            it.seq() == s@,
            (done.deep_view(), cur@) == scan_lines(s@.take(it.index() as int)),
    {
        proof {
            let i = it.index() as int;
            assert(s@.take(i + 1).drop_last() =~= s@.take(i));
        }
        if c == '\n' {
            let n = cur.len();
            if n > 0 && cur[n - 1] == '\r' {
                cur.pop();
            }
            let line = string_of(&cur);
            let ghost before = done.deep_view();
            done.push(line);
            assert(done.deep_view() =~= before.push(line@));
            cur = Vec::new();
        } else {
            cur.push(c);
        }
    }
    assert(s@.take(s@.len() as int) =~= s@);
    if cur.len() > 0 {
        let line = string_of(&cur);
        let ghost before = done.deep_view();
        done.push(line);
        assert(done.deep_view() =~= before.push(line@));
    }
    done
}

/// The first of `ls` that begins with `key`.
pub open spec fn first_with_prefix(ls: Seq<Seq<char>>, key: Seq<char>) -> Option<Seq<char>>
    decreases ls.len(),
{
    if ls.len() == 0 {
        None
    } else if starts_with(ls[0], key) {
        Some(ls[0])
    } else {
        first_with_prefix(ls.drop_first(), key)
    }
}

/// The number on the first line of `text` that begins with `key`, or 0.
pub open spec fn field_number(text: Seq<char>, key: Seq<char>) -> u64 {
    second_number(first_with_prefix(lines(text), key))
}

/// The number on the first line of `text` that begins with `key` (such as `VmRSS:` in a
/// process's `status` file), or 0.
pub fn field_value(text: &str, key: &str) -> (n: u64)
    ensures
        n == field_number(text@, key@),
{
    let ls = split_lines(text);
    let k = chars_of(key);
    let mut i: usize = 0;
    assert(ls.deep_view().skip(0) =~= ls.deep_view());
    while i < ls.len()
        invariant
            i <= ls@.len(),
            k@ == key@,
            ls.deep_view() == lines(text@),
            first_with_prefix(lines(text@), key@) == first_with_prefix(ls.deep_view().skip(i as int), key@),
        decreases ls.len() - i,
    {
        assert(ls.deep_view().skip(i as int)[0] == ls@[i as int]@);
        if has_prefix(&chars_of(ls[i].as_str()), &k) {
            return linux_num(Some(ls[i].as_str()));
        }
        assert(ls.deep_view().skip(i as int).drop_first() =~= ls.deep_view().skip(i + 1));
        i = i + 1;
    }
    0
}

/// Available memory and used swap, in MiB, from the text of `/proc/meminfo` (which counts kB).
pub open spec fn memory_figures(meminfo: Seq<char>) -> (u64, u64) {
    let avail = field_number(meminfo, "MemAvailable:"@);
    let total = field_number(meminfo, "SwapTotal:"@);
    let free = field_number(meminfo, "SwapFree:"@);
    ((avail / 1024) as u64, ((if total >= free { total - free } else { 0 }) / 1024) as u64)
}

/// Available memory and used swap, in MiB, from the text of `/proc/meminfo`.
pub fn memory_stats(meminfo: &str) -> (r: (u64, u64))
    ensures
        r == memory_figures(meminfo@),
{
    let avail = field_value(meminfo, "MemAvailable:") / 1024;
    let total = field_value(meminfo, "SwapTotal:");
    let free = field_value(meminfo, "SwapFree:");
    (avail, total.saturating_sub(free) / 1024)
}

/// The numbers among `ws`, in order; words that are not numbers are left out.
pub open spec fn numbers_in(ws: Seq<Seq<char>>) -> Seq<u64>
    decreases ws.len(),
{
    if ws.len() == 0 {
        seq![]
    } else {
        let rest = numbers_in(ws.drop_last());
        match u64_of_text(ws.last()) {
            Some(v) => rest.push(v),
            None => rest,
        }
    }
}

/// The numbers among `ws`, in order.
pub fn parse_numbers(ws: &Vec<String>) -> (r: Vec<u64>)
    ensures
        r@ == numbers_in(ws.deep_view()),
{
    let mut r: Vec<u64> = Vec::new();
    let mut i: usize = 0;
    while i < ws.len()
        invariant
            i <= ws@.len(),
            r@ == numbers_in(ws.deep_view().take(i as int)),
        decreases ws.len() - i,
    {
        proof {
            assert(ws.deep_view().take(i + 1).drop_last() =~= ws.deep_view().take(i as int));
            assert(ws.deep_view().take(i + 1).last() == ws@[i as int]@);
        }
        match parse_u64(ws[i].as_str()) {
            Some(x) => r.push(x),
            None => {},
        }
        i = i + 1;
    }
    assert(ws.deep_view().take(ws@.len() as int) =~= ws.deep_view());
    r
}

/// The sum of `v`.
pub open spec fn total_of(v: Seq<u64>) -> int
    decreases v.len(),
{
    if v.len() == 0 {
        0
    } else {
        total_of(v.drop_last()) + v.last()
    }
}

/// The numbers after the first word of the first line of `/proc/stat`: the CPU time counters.
pub open spec fn cpu_counters_of(stat: Seq<char>) -> Seq<u64> {
    let ls = lines(stat);
    let first = if ls.len() > 0 {
        ls[0]
    } else {
        seq![]
    };
    let ws = words(first);
    numbers_in(if ws.len() > 0 {
        ws.drop_first()
    } else {
        seq![]
    })
}

/// The counter at position `i`, or 0 when there are fewer.
pub open spec fn counter_at(v: Seq<u64>, i: int) -> int {
    if 0 <= i < v.len() {
        v[i] as int
    } else {
        0
    }
}

/// The total CPU time and the idle time (the idle and I/O wait counters) of `/proc/stat`, when
/// both fit in a `u64`.
pub open spec fn cpu_sample_of(stat: Seq<char>) -> Option<(u64, u64)> {
    let v = cpu_counters_of(stat);
    let total = total_of(v);
    let idle = counter_at(v, 3) + counter_at(v, 4);
    if total <= u64::MAX && idle <= u64::MAX {
        Some((total as u64, idle as u64))
    } else {
        None
    }
}

/// The total CPU time and the idle time from the text of `/proc/stat`; nothing when a sum does
/// not fit in a `u64` (where the monitor's arithmetic would overflow).
pub fn cpu_sample(stat: &str) -> (r: Option<(u64, u64)>)
    ensures
        r == cpu_sample_of(stat@),
{
    let ls = split_lines(stat);
    let first = if ls.len() > 0 {
        assert(ls.deep_view()[0] == ls@[0]@);
        ls[0].clone()
    } else {
        String::new()
    };
    let ws = split_words(first.as_str());
    let ghost rest_words = if ws.deep_view().len() > 0 {
        ws.deep_view().drop_first()
    } else {
        seq![]
    };
    let mut v: Vec<u64> = Vec::new();
    let mut i: usize = 1;
    while i < ws.len()
        invariant
            1 <= i,
            ws.deep_view().len() > 0 ==> i <= ws.deep_view().len(),
            ws.deep_view().len() == 0 ==> i == 1,
            rest_words == (if ws.deep_view().len() > 0 {
                ws.deep_view().drop_first()
            } else {
                seq![]
            }),
            v@ == numbers_in(rest_words.take(i - 1)),
        decreases ws.len() - i,
    {
        proof {
            assert(rest_words.take(i as int).drop_last() =~= rest_words.take(i - 1));
            assert(rest_words.take(i as int).last() == ws@[i as int]@);
        }
        match parse_u64(ws[i].as_str()) {
            Some(x) => v.push(x),
            None => {},
        }
        i = i + 1;
    }
    proof {
        if ws.deep_view().len() > 0 {
            assert(rest_words.take(i - 1) =~= rest_words);
        } else {
            assert(rest_words.take(0) =~= rest_words);
        }
        assert(first@ == (if lines(stat@).len() > 0 { lines(stat@)[0] } else { seq![] }));
        let f = if lines(stat@).len() > 0 { lines(stat@)[0] } else { seq![] };
        assert(ws.deep_view() == words(f));
        assert(v@ == numbers_in(rest_words));
        assert(rest_words == (if words(f).len() > 0 { words(f).drop_first() } else { seq![] }));
        assert(v@ == cpu_counters_of(stat@));
    }
    let mut total: u64 = 0;
    let mut j: usize = 0;
    while j < v.len()
        invariant
            j <= v@.len(),
            v@ == cpu_counters_of(stat@),
            total == total_of(v@.take(j as int)),
        decreases v.len() - j,
    {
        proof {
            assert(v@.take(j + 1).drop_last() =~= v@.take(j as int));
            lemma_total_prefix_le(v@, j as int + 1);
        }
        if total > u64::MAX - v[j] {
            proof {
                assert(total_of(v@.take(j + 1)) == total_of(v@.take(j as int)) + v@[j as int]);
                lemma_total_prefix_le(v@, v@.len() as int);
                assert(v@.take(v@.len() as int) =~= v@);
            }
            return None;
        }
        total = total + v[j];
        j = j + 1;
    }
    assert(v@.take(v@.len() as int) =~= v@);
    let a: u64 = if v.len() > 3 {
        v[3]
    } else {
        0
    };
    let b: u64 = if v.len() > 4 {
        v[4]
    } else {
        0
    };
    if a > u64::MAX - b {
        return None;
    }
    Some((total, a + b))
}

/// A sum over a prefix is at most the sum over the whole.
pub proof fn lemma_total_prefix_le(v: Seq<u64>, n: int)
    requires
        0 <= n <= v.len(),
    ensures
        total_of(v.take(n)) <= total_of(v),
    decreases v.len(),
{
    if n < v.len() {
        assert(v.drop_last().take(n) =~= v.take(n));
        lemma_total_prefix_le(v.drop_last(), n);
    } else {
        assert(v.take(n) =~= v);
    }
}

/// A command line read from `/proc/<pid>/cmdline`, its NUL separators turned into spaces and
/// surrounding whitespace removed; nothing when that leaves it empty.
pub open spec fn cmdline_text(raw: Seq<char>) -> Option<Seq<char>> {
    let t = trim_ws(raw.map_values(|c: char| if c == '\0' { ' ' } else { c }));
    if t.len() == 0 {
        None
    } else {
        Some(t)
    }
}

/// A command line read from `/proc/<pid>/cmdline`, as text; nothing when it is blank (as for
/// kernel threads, whose name is used instead).
pub fn clean_cmdline(raw: &str) -> (r: Option<String>)
    ensures
        opt_chars(r) == cmdline_text(raw@),
{
    let chars = chars_of(raw);
    let mut spaced: Vec<char> = Vec::new();
    let mut i: usize = 0;
    while i < chars.len()
        invariant
            i <= chars@.len(),
            chars@ == raw@,
            spaced@ == chars@.take(i as int).map_values(|c: char| if c == '\0' { ' ' } else { c }),
        decreases chars.len() - i,
    {
        let c = chars[i];
        spaced.push(if c == '\0' { ' ' } else { c });
        i = i + 1;
        assert(spaced@ =~= chars@.take(i as int).map_values(|c: char| if c == '\0' { ' ' } else { c }));
    }
    assert(chars@.take(chars@.len() as int) =~= chars@);
    let t = trim_chars(&spaced);
    if t.len() == 0 {
        None
    } else {
        Some(string_of(&t))
    }
}

/// The view of an optional string.
pub open spec fn opt_chars(o: Option<String>) -> Option<Seq<char>> {
    match o {
        Some(s) => Some(s@),
        None => None,
    }
}

/// The fields the monitor reads from `/proc/<pid>/stat`.
#[derive(Debug)]
pub struct StatFields {
    pub state: String,
    pub ppid: i32,
    /// Time spent in user mode, in clock ticks.
    pub user_ticks: u64,
    /// Time spent in kernel mode, in clock ticks.
    pub system_ticks: u64,
    /// When the process started, in clock ticks after boot.
    pub start_time: u64,
}

/// The text after the last `)` of a `stat` line can be taken from two bytes past it: a
/// character follows the `)` and it is a single byte. (The process name, in parentheses, may
/// itself hold spaces and parentheses, hence the last one.)
pub open spec fn stat_readable(s: Seq<char>) -> bool {
    match rfind(s, ')') {
        None => true,
        Some(i) => i + 1 < s.len() && is_ascii_char(s[i + 1]),
    }
}

/// The `i`-th word of `f`, or the empty text when there are fewer.
pub open spec fn word_or_empty(f: Seq<Seq<char>>, i: int) -> Seq<char> {
    if 0 <= i < f.len() {
        f[i]
    } else {
        seq![]
    }
}

/// The state, parent pid, user and system ticks and start time in a `stat` line: the words
/// after the process name, in positions 0, 1, 11, 12 and 19; nothing when there is no `)` or
/// one of the numbers is missing or malformed.
pub open spec fn stat_fields_of(s: Seq<char>) -> Option<(Seq<char>, i32, u64, u64, u64)> {
    match rfind(s, ')') {
        None => None,
        Some(i) => {
            let f = words(s.skip(i + 2));
            match (
                i32_of_text(word_or_empty(f, 1)),
                u64_of_text(word_or_empty(f, 11)),
                u64_of_text(word_or_empty(f, 12)),
                u64_of_text(word_or_empty(f, 19)),
            ) {
                (Some(ppid), Some(u), Some(st), Some(m)) => Some((word_or_empty(f, 0), ppid, u, st, m)),
                _ => None,
            }
        },
    }
}

/// Whether the text after the process name of a `stat` line can be taken.
pub fn stat_is_readable(stat: &str) -> (b: bool)
    ensures
        b == stat_readable(stat@),
{
    let chars = chars_of(stat);
    match rfind_char(&chars, ')') {
        None => true,
        Some(i) => {
            proof {
                lemma_last_index_before(chars@, ')', chars@.len() as int);
                assert(rfind(chars@, ')') == Some(i as int));
            }
            assert(i < chars.len());
            i + 1 < chars.len() && (chars[i + 1] as u32) < 128
        },
    }
}

fn word_at(f: &Vec<String>, i: usize) -> (r: String)
    ensures
        r@ == word_or_empty(f.deep_view(), i as int),
{
    if i < f.len() {
        assert(f.deep_view()[i as int] == f@[i as int]@);
        f[i].clone()
    } else {
        String::new()
    }
}

/// The fields of a `/proc/<pid>/stat` line, when they are all there.
pub fn parse_stat(stat: &str) -> (r: Option<StatFields>)
    requires
        stat_readable(stat@),
    ensures
        match r {
            Some(f) => stat_fields_of(stat@) == Some(
                (f.state@, f.ppid, f.user_ticks, f.system_ticks, f.start_time),
            ),
            None => stat_fields_of(stat@) is None,
        },
{
    let chars = chars_of(stat);
    let i = match rfind_char(&chars, ')') {
        None => return None,
        Some(i) => i,
    };
    proof {
        lemma_last_index_before(chars@, ')', chars@.len() as int);
        assert(chars@ == stat@);
        assert(rfind(chars@, ')') == Some(i as int));
        assert(i + 1 < chars@.len());
    }
    assert(i + 1 < chars.len());
    let start = i + 2;
    let mut rest: Vec<char> = Vec::new();
    let mut k: usize = start;
    while k < chars.len()
        invariant
            start <= k <= chars@.len(),
            rest@ == chars@.subrange(start as int, k as int),
        decreases chars.len() - k,
    {
        rest.push(chars[k]);
        k = k + 1;
        assert(rest@ =~= chars@.subrange(start as int, k as int));
    }
    assert(rest@ =~= stat@.skip(start as int));
    let f = split_words(string_of(&rest).as_str());
    let ppid = parse_i32(word_at(&f, 1).as_str());
    let user = parse_u64(word_at(&f, 11).as_str());
    let system = parse_u64(word_at(&f, 12).as_str());
    let marker = parse_u64(word_at(&f, 19).as_str());
    match (ppid, user, system, marker) {
        (Some(ppid), Some(u), Some(s), Some(m)) => Some(
            StatFields { state: word_at(&f, 0), ppid, user_ticks: u, system_ticks: s, start_time: m },
        ),
        _ => None,
    }
}

} // verus!
