//! Decimal numbers in text: reading them (as `str::parse` does) and writing them.
use vstd::prelude::*;
use crate::text::{chars_of, push_char};

verus! {

pub open spec fn is_digit(c: char) -> bool {
    48 <= (c as u32) && (c as u32) <= 57
}

/// One or more ASCII digits and nothing else.
pub open spec fn all_digits(d: Seq<char>) -> bool {
    d.len() > 0 && forall|i: int| 0 <= i < d.len() ==> is_digit(#[trigger] d[i])
}

/// The value of a run of ASCII digits, read in base ten.
pub open spec fn digits_value(d: Seq<char>) -> nat
    decreases d.len(),
{
    if d.len() == 0 {
        0
    } else {
        digits_value(d.drop_last()) * 10 + ((d.last() as u32) - 48) as nat
    }
}

/// `s` without one leading `+`, if it has one.
pub open spec fn unsigned_digits(s: Seq<char>) -> Seq<char> {
    if s.len() > 0 && s[0] == '+' {
        s.drop_first()
    } else {
        s
    }
}

/// What `s.parse::<u64>().ok()` gives: an optional `+` followed by at least one digit, with a
/// value that fits.
pub open spec fn u64_of_text(s: Seq<char>) -> Option<u64> {
    let d = unsigned_digits(s);
    if all_digits(d) && digits_value(d) <= u64::MAX {
        Some(digits_value(d) as u64)
    } else {
        None
    }
}

/// What `s.parse::<i32>().ok()` gives: an optional `+` or `-` followed by at least one digit,
/// with a value in range.
pub open spec fn i32_of_text(s: Seq<char>) -> Option<i32> {
    if s.len() > 0 && s[0] == '-' {
        let d = s.drop_first();
        if all_digits(d) && digits_value(d) <= 0x8000_0000 {
            Some((0 - digits_value(d)) as i32)
        } else {
            None
        }
    } else {
        let d = unsigned_digits(s);
        if all_digits(d) && digits_value(d) <= i32::MAX {
            Some(digits_value(d) as i32)
        } else {
            None
        }
    }
}

/// A number read in base ten is at least the number read from any prefix of its digits.
proof fn lemma_digits_value_prefix_le(e: Seq<char>, k: int)
    requires
        0 <= k <= e.len(),
    ensures
        digits_value(e.take(k)) <= digits_value(e),
    decreases e.len(),
{
    if k < e.len() {
        assert(e.drop_last().take(k) =~= e.take(k));
        lemma_digits_value_prefix_le(e.drop_last(), k);
    } else {
        assert(e.take(k) =~= e);
    }
}

/// The characters of `d` from `start` on, read as digits in base ten, when they are one or more
/// digits and nothing else and their value is at most `limit`.
fn read_digits(d: &Vec<char>, start: usize, limit: u64) -> (r: Option<u64>)
    requires
        start <= d.len(),
        limit >= 9,
    ensures
        r == (if all_digits(d@.skip(start as int)) && digits_value(d@.skip(start as int)) <= limit {
            Some(digits_value(d@.skip(start as int)) as u64)
        } else {
            None
        }),
{
    let ghost e = d@.skip(start as int);
    if start == d.len() {
        return None;
    }
    let mut v: u64 = 0;
    let mut j: usize = start;
    while j < d.len()
        invariant
            start <= j <= d@.len(),
            e == d@.skip(start as int),
            forall|k: int| start <= k < j ==> is_digit(#[trigger] d@[k]),
            v == digits_value(e.take(j - start)),
            v <= limit,
            limit >= 9,
        decreases d.len() - j,
    {
        let u = d[j] as u32;
        if u < 48 || u > 57 {
            assert(!is_digit(e[j - start]));
            return None;
        }
        let digit = (u - 48) as u64;
        proof {
            assert(e.take(j - start + 1).drop_last() =~= e.take(j - start));
            assert(e.take(j - start + 1).last() == d@[j as int]);
        }
        if v > (limit - digit) / 10 {
            proof {
                lemma_digits_value_prefix_le(e, j - start + 1);
                assert(v * 10 + digit > limit) by (nonlinear_arith)
                    requires
                        v > (limit - digit) / 10,
                        digit <= 9,
                        digit <= limit;
            }
            return None;
        }
        proof {
            assert(v * 10 + digit <= limit) by (nonlinear_arith)
                requires
                    v <= (limit - digit) / 10,
                    digit <= limit;
        }
        v = v * 10 + digit;
        j = j + 1;
    }
    assert(e.take(j - start) =~= e);
    Some(v)
}

/// The number that `s` gives as a `u64` in base ten (what `s.parse::<u64>().ok()` gives).
pub fn parse_u64(s: &str) -> (r: Option<u64>)
    ensures
        r == u64_of_text(s@),
{
    let d = chars_of(s);
    let start: usize = if d.len() > 0 && d[0] == '+' { 1 } else { 0 };
    assert(d@.skip(start as int) =~= unsigned_digits(s@));
    read_digits(&d, start, u64::MAX)
}

/// The number that `s` gives as an `i32` in base ten (what `s.parse::<i32>().ok()` gives).
pub fn parse_i32(s: &str) -> (r: Option<i32>)
    ensures
        r == i32_of_text(s@),
{
    let d = chars_of(s);
    if d.len() > 0 && d[0] == '-' {
        assert(d@.skip(1) =~= s@.drop_first());
        match read_digits(&d, 1, 0x8000_0000) {
            Some(v) => {
                let x: i64 = 0 - (v as i64);
                Some(x as i32)
            },
            None => None,
        }
    } else {
        let start: usize = if d.len() > 0 && d[0] == '+' { 1 } else { 0 };
        assert(d@.skip(start as int) =~= unsigned_digits(s@));
        match read_digits(&d, start, 0x7fff_ffff) {
            Some(v) => Some(v as i32),
            None => None,
        }
    }
}

/// The ASCII digit for `d`, which is below ten.
pub open spec fn digit_char(d: nat) -> char {
    ((48 + d) as u32) as char
}

/// The base-ten digits of `n`, without leading zeros.
pub open spec fn digits_of(n: nat) -> Seq<char>
    decreases n,
{
    if n < 10 {
        seq![digit_char(n)]
    } else {
        digits_of(n / 10).push(digit_char(n % 10))
    }
}

/// `n` written in base ten, with a leading `-` when it is negative: what `format!("{}", n)`
/// writes for an integer.
pub open spec fn decimal(n: int) -> Seq<char> {
    if n < 0 {
        seq!['-'] + digits_of((0 - n) as nat)
    } else {
        digits_of(n as nat)
    }
}

/// The digits of a number start with a digit, and there are two or more from ten on.
pub proof fn lemma_digits_of_shape(n: nat)
    ensures
        digits_of(n).len() >= 1,
        is_digit(digits_of(n)[0]),
        n >= 10 ==> digits_of(n).len() >= 2,
    decreases n,
{
    if n >= 10 {
        lemma_digits_of_shape(n / 10);
    }
}

/// Different numbers have different digits.
pub proof fn lemma_digits_of_injective(a: nat, b: nat)
    requires
        digits_of(a) == digits_of(b),
    ensures
        a == b,
    decreases a,
{
    lemma_digits_of_shape(a);
    lemma_digits_of_shape(b);
    if a < 10 && b < 10 {
        assert(digits_of(a)[0] == digit_char(a));
        assert(digits_of(b)[0] == digit_char(b));
    } else if a >= 10 && b >= 10 {
        let da = digits_of(a);
        let db = digits_of(b);
        assert(da.last() == digit_char(a % 10));
        assert(db.last() == digit_char(b % 10));
        assert(da.drop_last() =~= digits_of(a / 10));
        assert(db.drop_last() =~= digits_of(b / 10));
        lemma_digits_of_injective(a / 10, b / 10);
    } else {
        assert(digits_of(a).len() != digits_of(b).len());
    }
}

/// Different numbers are written differently.
pub proof fn lemma_decimal_injective(a: int, b: int)
    requires
        decimal(a) == decimal(b),
    ensures
        a == b,
{
    if a < 0 {
        lemma_digits_of_shape((0 - a) as nat);
    }
    if b < 0 {
        lemma_digits_of_shape((0 - b) as nat);
    }
    if a >= 0 {
        lemma_digits_of_shape(a as nat);
    }
    if b >= 0 {
        lemma_digits_of_shape(b as nat);
    }
    if a < 0 && b < 0 {
        assert(decimal(a).drop_first() =~= digits_of((0 - a) as nat));
        assert(decimal(b).drop_first() =~= digits_of((0 - b) as nat));
        lemma_digits_of_injective((0 - a) as nat, (0 - b) as nat);
    } else if a >= 0 && b >= 0 {
        lemma_digits_of_injective(a as nat, b as nat);
    } else {
        assert(decimal(a)[0] != decimal(b)[0]);
    }
}

fn digit(d: u64) -> (c: char)
    requires
        d < 10,
    ensures
        c == digit_char(d as nat),
{
    let b: u8 = (48 + d) as u8;
    b as char
}

fn push_digits(s: &mut String, n: u64)
    ensures
        final(s)@ == old(s)@ + digits_of(n as nat),
    decreases n,
{
    if n >= 10 {
        push_digits(s, n / 10);
    }
    push_char(s, digit(n % 10));
    proof {
        if n < 10 {
            assert(final(s)@ =~= old(s)@ + digits_of(n as nat));
        }
    }
}

/// Appends `n` written in base ten to `s`.
pub fn push_decimal(s: &mut String, n: i32)
    ensures
        final(s)@ == old(s)@ + decimal(n as int),
{
    let wide: i64 = n as i64;
    if wide < 0 {
        push_char(s, '-');
        push_digits(s, (0 - wide) as u64);
        proof {
            assert(final(s)@ =~= old(s)@ + decimal(n as int));
        }
    } else {
        push_digits(s, wide as u64);
    }
}

} // verus!
