//! Reading the process list printed by `ps -axo pid=,ppid=,state=,etime=,rss=,pcpu=,comm=,args=`
//! (the macOS process inventory).
use vstd::prelude::*;
use crate::command::{redact, redacted};
use crate::number::{i32_of_text, parse_i32};
use crate::procfs::{numbers_in, parse_numbers};
use crate::text::{char_is_whitespace, push_char, white_space};

verus! {

/// The state of reading the columns of `s`, left to right: the columns completed and the one
/// in progress. The first seven columns are words separated by runs of whitespace (`ps` pads
/// its right-aligned columns); the eighth, `args`, is all of the line after the whitespace
/// character that ends the seventh word.
pub open spec fn scan_columns(s: Seq<char>) -> (Seq<Seq<char>>, Seq<char>)
    decreases s.len(),
{
    if s.len() == 0 {
        (seq![], seq![])
    } else {
        let (done, cur) = scan_columns(s.drop_last());
        let c = s.last();
        if done.len() < 7 {
            if !white_space(c) {
                (done, cur.push(c))
            } else if cur.len() > 0 {
                (done.push(cur), seq![])
            } else {
                (done, cur)
            }
        } else {
            (done, cur.push(c))
        }
    }
}

/// The columns of a `ps` line: up to seven whitespace-separated words, then the rest of the
/// line after the seventh word and the character that ends it, when anything is left.
pub open spec fn ps_columns(l: Seq<char>) -> Seq<Seq<char>> {
    let (done, cur) = scan_columns(l);
    if cur.len() > 0 {
        done.push(cur)
    } else {
        done
    }
}

/// The state of splitting `s` at every `-` and `:`: the pieces completed and the one in
/// progress.
pub open spec fn scan_pieces(s: Seq<char>) -> (Seq<Seq<char>>, Seq<char>)
    decreases s.len(),
{
    if s.len() == 0 {
        (seq![], seq![])
    } else {
        let (done, cur) = scan_pieces(s.drop_last());
        if s.last() == '-' || s.last() == ':' {
            (done.push(cur), seq![])
        } else {
            (done, cur.push(s.last()))
        }
    }
}

/// The pieces of `s` between its `-` and `:` separators.
pub open spec fn time_pieces(s: Seq<char>) -> Seq<Seq<char>> {
    let (done, cur) = scan_pieces(s);
    done.push(cur)
}

/// The numbers read as successive base-60 digits, the last the lowest: `[m, s]` and `[h, m, s]`
/// give the seconds of `ps`'s `mm:ss` and `hh:mm:ss` elapsed times; a leading day count of
/// `d-hh:mm:ss` is taken as one more base-60 digit too, so a day counts as 60 hours.
pub open spec fn sexagesimal(v: Seq<u64>) -> int
    decreases v.len(),
{
    if v.len() == 0 {
        0
    } else {
        sexagesimal(v.drop_last()) * 60 + v.last()
    }
}

/// The elapsed time the monitor reads from a `ps` `etime` column: its numbers between `-` and
/// `:` read in base 60 (see `sexagesimal`).
pub open spec fn age_of(etime: Seq<char>) -> int {
    sexagesimal(numbers_in(time_pieces(etime)))
}

/// The line has valid pid and ppid columns but no elapsed-time column, or an elapsed time too
/// large for a `u64`: lines on which the monitor's reading fails.
pub open spec fn ps_line_unreadable(l: Seq<char>) -> bool {
    let f = ps_columns(l);
    &&& f.len() >= 2
    &&& i32_of_text(f[0]) is Some
    &&& i32_of_text(f[1]) is Some
    &&& (f.len() < 4 || age_of(f[3]) > u64::MAX)
}

/// The columns of a process line from `ps`; the memory and CPU columns are kept as text, for
/// the monitor measures them as fractions.
#[derive(Debug)]
pub struct PsRow {
    pub pid: i32,
    pub ppid: i32,
    pub state: String,
    pub elapsed_seconds: u64,
    pub name: String,
    pub rss: String,
    pub pcpu: String,
    /// The full command line, redacted.
    pub command: String,
}

/// What a `ps` line gives: nothing without a pid, a parent pid and a name column; otherwise the
/// columns, the command being the redacted `args` column (the name when it is missing).
pub open spec fn ps_row_matches(l: Seq<char>, r: Option<PsRow>) -> bool {
    let f = ps_columns(l);
    if f.len() < 7 || i32_of_text(f[0]) is None || i32_of_text(f[1]) is None {
        r is None
    } else {
        r matches Some(row) && {
            &&& Some(row.pid) == i32_of_text(f[0])
            &&& Some(row.ppid) == i32_of_text(f[1])
            &&& row.state@ == f[2]
            &&& row.elapsed_seconds == age_of(f[3])
            &&& row.rss@ == f[4]
            &&& row.pcpu@ == f[5]
            &&& row.name@ == f[6]
            &&& row.command@ == redacted(if f.len() > 7 { f[7] } else { f[6] })
        }
    }
}

/// The columns of a `ps` line.
pub fn ps_columns_of(l: &str) -> (r: Vec<String>)
    ensures
        r.deep_view() == ps_columns(l@),
{
    let mut done: Vec<String> = Vec::new();
    let mut cur = String::new();
    for c in it: l.chars()
        invariant
            it.seq() == l@,
            (done.deep_view(), cur@) == scan_columns(l@.take(it.index() as int)),
    {
        proof {
            let i = it.index() as int;
            assert(l@.take(i + 1).drop_last() =~= l@.take(i));
        }
        let ws = char_is_whitespace(c);
        if done.len() < 7 {
            if !ws {
                push_char(&mut cur, c);
            } else if !cur.as_str().is_empty() {
                let ghost before = done.deep_view();
                done.push(cur);
                assert(done.deep_view() =~= before.push(cur@));
                cur = String::new();
            }
        } else {
            push_char(&mut cur, c);
        }
    }
    assert(l@.take(l@.len() as int) =~= l@);
    if !cur.as_str().is_empty() {
        let ghost before = done.deep_view();
        done.push(cur);
        assert(done.deep_view() =~= before.push(cur@));
    }
    done
}

/// The pieces of `s` between its `-` and `:` separators.
pub fn time_pieces_of(s: &str) -> (r: Vec<String>)
    ensures
        r.deep_view() == time_pieces(s@),
{
    let mut done: Vec<String> = Vec::new();
    let mut cur = String::new();
    for c in it: s.chars()
        invariant
            it.seq() == s@,
            (done.deep_view(), cur@) == scan_pieces(s@.take(it.index() as int)),
    {
        proof {
            let i = it.index() as int;
            assert(s@.take(i + 1).drop_last() =~= s@.take(i));
        }
        if c == '-' || c == ':' {
            let ghost before = done.deep_view();
            done.push(cur);
            assert(done.deep_view() =~= before.push(cur@));
            cur = String::new();
        } else {
            push_char(&mut cur, c);
        }
    }
    assert(s@.take(s@.len() as int) =~= s@);
    let ghost before = done.deep_view();
    done.push(cur);
    assert(done.deep_view() =~= before.push(cur@));
    done
}

/// A base-60 reading of a prefix is at most that of the whole.
pub proof fn lemma_sexagesimal_prefix_le(v: Seq<u64>, n: int)
    requires
        0 <= n <= v.len(),
    ensures
        0 <= sexagesimal(v.take(n)) <= sexagesimal(v),
    decreases v.len(),
{
    if n < v.len() {
        assert(v.drop_last().take(n) =~= v.take(n));
        lemma_sexagesimal_prefix_le(v.drop_last(), n);
    } else {
        assert(v.take(n) =~= v);
        if v.len() > 0 {
            lemma_sexagesimal_prefix_le(v.drop_last(), v.len() - 1);
        }
    }
}

/// The elapsed time in seconds given by a `ps` `etime` column, when it fits in a `u64`.
fn age_seconds(etime: &str) -> (r: Option<u64>)
    ensures
        match r {
            Some(x) => x == age_of(etime@),
            None => age_of(etime@) > u64::MAX,
        },
{
    let v = parse_numbers(&time_pieces_of(etime));
    let mut a: u64 = 0;
    let mut j: usize = 0;
    while j < v.len()
        invariant
            j <= v@.len(),
            v@ == numbers_in(time_pieces(etime@)),
            a == sexagesimal(v@.take(j as int)),
        decreases v.len() - j,
    {
        proof {
            assert(v@.take(j + 1).drop_last() =~= v@.take(j as int));
            lemma_sexagesimal_prefix_le(v@, j + 1);
        }
        if a > (u64::MAX - v[j]) / 60 {
            proof {
                assert(sexagesimal(v@.take(j + 1)) == a * 60 + v@[j as int]);
                assert(a * 60 + v@[j as int] > u64::MAX) by (nonlinear_arith)
                    requires
                        a > (u64::MAX - v@[j as int]) / 60,
                        v@[j as int] <= u64::MAX;
            }
            return None;
        }
        proof {
            assert(a * 60 + v@[j as int] <= u64::MAX) by (nonlinear_arith)
                requires
                    a <= (u64::MAX - v@[j as int]) / 60,
                    v@[j as int] <= u64::MAX;
        }
        a = a * 60 + v[j];
        j = j + 1;
    }
    assert(v@.take(v@.len() as int) =~= v@);
    Some(a)
}

/// Whether the monitor can read a `ps` line: it fails on one with valid pid and ppid columns
/// but no elapsed-time column or an elapsed time too large.
pub fn ps_line_readable(l: &str) -> (b: bool)
    ensures
        b == !ps_line_unreadable(l@),
{
    let f = ps_columns_of(l);
    if f.len() < 2 {
        return true;
    }
    assert(f.deep_view()[0] == f@[0]@ && f.deep_view()[1] == f@[1]@);
    if parse_i32(f[0].as_str()).is_none() || parse_i32(f[1].as_str()).is_none() {
        return true;
    }
    if f.len() < 4 {
        return false;
    }
    assert(f.deep_view()[3] == f@[3]@);
    age_seconds(f[3].as_str()).is_some()
}

/// The columns of a process line from `ps`, when it has a pid, a parent pid and a name.
pub fn parse_ps_line(l: &str) -> (r: Option<PsRow>)
    requires
        !ps_line_unreadable(l@),
    ensures
        ps_row_matches(l@, r),
{
    let f = ps_columns_of(l);
    if f.len() < 2 {
        return None;
    }
    assert(f.deep_view()[0] == f@[0]@ && f.deep_view()[1] == f@[1]@);
    let pid = match parse_i32(f[0].as_str()) {
        Some(p) => p,
        None => return None,
    };
    let ppid = match parse_i32(f[1].as_str()) {
        Some(p) => p,
        None => return None,
    };
    assert(f.deep_view()[3] == f@[3]@);
    let age = match age_seconds(f[3].as_str()) {
        Some(a) => a,
        None => return None,
    };
    if f.len() < 7 {
        return None;
    }
    assert(f.deep_view()[2] == f@[2]@ && f.deep_view()[4] == f@[4]@ && f.deep_view()[5] == f@[5]@
        && f.deep_view()[6] == f@[6]@);
    let command = if f.len() > 7 {
        assert(f.deep_view()[7] == f@[7]@);
        redact(f[7].as_str())
    } else {
        redact(f[6].as_str())
    };
    Some(
        PsRow {
            pid,
            ppid,
            state: f[2].clone(),
            elapsed_seconds: age,
            name: f[6].clone(),
            rss: f[4].clone(),
            pcpu: f[5].clone(),
            command,
        },
    )
}

} // verus!
