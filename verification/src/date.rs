//! Calendar dates and clock times as plain values, with the fixed-width
//! `YYYY-MM-DD` and `HHMM` text forms used by Cabrillo contact lines.

use vstd::prelude::*;

use crate::text::{digit_char, digit_val, digit_str, is_digit_char, is_digit_c, is_ws_char,
    lemma_digit_char_val};

verus! {

/// A Gregorian calendar date.
#[derive(Clone, Copy, PartialEq, Eq, Structural, Debug)]
pub struct Date {
    pub year: u16,
    pub month: u8,
    pub day: u8,
}

/// A 24-hour wall-clock time, to the minute.
#[derive(Clone, Copy, PartialEq, Eq, Structural, Debug)]
pub struct Time {
    pub hour: u8,
    pub minute: u8,
}

pub open spec fn is_leap_year(y: int) -> bool {
    y % 4 == 0 && (y % 100 != 0 || y % 400 == 0)
}

pub open spec fn days_in_month(y: int, m: int) -> int {
    if m == 2 {
        if is_leap_year(y) {
            29
        } else {
            28
        }
    } else if m == 4 || m == 6 || m == 9 || m == 11 {
        30
    } else {
        31
    }
}

/// A real calendar date that fits the four-digit year form.
pub open spec fn date_wf(d: Date) -> bool {
    d.year <= 9999 && 1 <= d.month <= 12 && 1 <= d.day <= days_in_month(
        d.year as int,
        d.month as int,
    )
}

pub open spec fn time_wf(t: Time) -> bool {
    t.hour < 24 && t.minute < 60
}

// ---------------------------------------------------------------------------
// Fixed-width decimal rendering
// ---------------------------------------------------------------------------

pub open spec fn spec_fmt2(n: int) -> Seq<char> {
    seq![digit_char(n / 10 % 10), digit_char(n % 10)]
}

pub open spec fn spec_fmt4(n: int) -> Seq<char> {
    seq![
        digit_char(n / 1000 % 10),
        digit_char(n / 100 % 10),
        digit_char(n / 10 % 10),
        digit_char(n % 10),
    ]
}

pub open spec fn spec_fmt_date(d: Date) -> Seq<char> {
    spec_fmt4(d.year as int) + seq!['-'] + spec_fmt2(d.month as int) + seq!['-'] + spec_fmt2(
        d.day as int,
    )
}

pub open spec fn spec_fmt_time(t: Time) -> Seq<char> {
    spec_fmt2(t.hour as int) + spec_fmt2(t.minute as int)
}

/// Appends `n` as exactly two decimal digits.
pub fn append_2d(out: &mut String, n: u32)
    requires
        n < 100,
    ensures
        final(out)@ == old(out)@ + spec_fmt2(n as int),
{
    out.append(digit_str(n / 10));
    out.append(digit_str(n % 10));
    proof {
        assert((old(out)@ + seq![digit_char(n as int / 10)]) + seq![digit_char(n as int % 10)] =~=
        old(out)@ + spec_fmt2(n as int));
    }
}

/// Appends `n` as exactly four decimal digits.
pub fn append_4d(out: &mut String, n: u32)
    requires
        n < 10000,
    ensures
        final(out)@ == old(out)@ + spec_fmt4(n as int),
{
    out.append(digit_str(n / 1000));
    out.append(digit_str(n / 100 % 10));
    out.append(digit_str(n / 10 % 10));
    out.append(digit_str(n % 10));
    proof {
        assert(((old(out)@ + seq![digit_char(n as int / 1000)]) + seq![
            digit_char(n as int / 100 % 10),
        ] + seq![digit_char(n as int / 10 % 10)]) + seq![digit_char(n as int % 10)] =~= old(out)@
            + spec_fmt4(n as int));
    }
}

/// Appends the `YYYY-MM-DD` form of `d`.
pub fn append_date(out: &mut String, d: &Date)
    requires
        date_wf(*d),
    ensures
        final(out)@ == old(out)@ + spec_fmt_date(*d),
{
    proof {
        reveal_strlit("-");
    }
    append_4d(out, d.year as u32);
    out.append("-");
    append_2d(out, d.month as u32);
    out.append("-");
    append_2d(out, d.day as u32);
    proof {
        assert("-"@ =~= seq!['-']);
        assert((((old(out)@ + spec_fmt4(d.year as int)) + seq!['-']) + spec_fmt2(d.month as int)
            + seq!['-']) + spec_fmt2(d.day as int) =~= old(out)@ + spec_fmt_date(*d));
    }
}

/// Appends the `HHMM` form of `t`.
pub fn append_time(out: &mut String, t: &Time)
    requires
        time_wf(*t),
    ensures
        final(out)@ == old(out)@ + spec_fmt_time(*t),
{
    append_2d(out, t.hour as u32);
    append_2d(out, t.minute as u32);
    proof {
        assert((old(out)@ + spec_fmt2(t.hour as int)) + spec_fmt2(t.minute as int) =~= old(out)@
            + spec_fmt_time(*t));
    }
}

// ---------------------------------------------------------------------------
// Fixed-width decimal reading
// ---------------------------------------------------------------------------

pub open spec fn val2(s: Seq<char>) -> int {
    digit_val(s[0]) * 10 + digit_val(s[1])
}

pub open spec fn val4(s: Seq<char>) -> int {
    digit_val(s[0]) * 1000 + digit_val(s[1]) * 100 + digit_val(s[2]) * 10 + digit_val(s[3])
}

/// The shape of a `YYYY-MM-DD` token, before calendar validity.
pub open spec fn date_token_ok(s: Seq<char>) -> bool {
    s.len() == 10 && s[4] == '-' && s[7] == '-' && is_digit_char(s[0]) && is_digit_char(s[1])
        && is_digit_char(s[2]) && is_digit_char(s[3]) && is_digit_char(s[5]) && is_digit_char(s[6])
        && is_digit_char(s[8]) && is_digit_char(s[9])
}

pub open spec fn spec_date_of(s: Seq<char>) -> Date {
    Date {
        year: val4(s.subrange(0, 4)) as u16,
        month: val2(s.subrange(5, 7)) as u8,
        day: val2(s.subrange(8, 10)) as u8,
    }
}

/// The date denoted by a `YYYY-MM-DD` token, if shape and calendar agree.
pub open spec fn spec_parse_date(s: Seq<char>) -> Option<Date> {
    if date_token_ok(s) && date_wf(spec_date_of(s)) {
        Some(spec_date_of(s))
    } else {
        None
    }
}

/// The shape of an `HHMM` token.
pub open spec fn time_token_ok(s: Seq<char>) -> bool {
    s.len() == 4 && is_digit_char(s[0]) && is_digit_char(s[1]) && is_digit_char(s[2])
        && is_digit_char(s[3])
}

pub open spec fn spec_time_of(s: Seq<char>) -> Time {
    Time { hour: val2(s.subrange(0, 2)) as u8, minute: val2(s.subrange(2, 4)) as u8 }
}

/// The time denoted by an `HHMM` token, if shape and clock range agree.
pub open spec fn spec_parse_time(s: Seq<char>) -> Option<Time> {
    if time_token_ok(s) && time_wf(spec_time_of(s)) {
        Some(spec_time_of(s))
    } else {
        None
    }
}

fn days_in_month_x(y: u32, m: u32) -> (r: u32)
    ensures
        r == days_in_month(y as int, m as int),
{
    if m == 2 {
        if y % 4 == 0 && (y % 100 != 0 || y % 400 == 0) {
            29
        } else {
            28
        }
    } else if m == 4 || m == 6 || m == 9 || m == 11 {
        30
    } else {
        31
    }
}

/// Whether a date lies on the calendar and fits the four-digit year form.
pub fn date_ok(d: &Date) -> (r: bool)
    ensures
        r == date_wf(*d),
{
    d.year <= 9999 && 1 <= d.month && d.month <= 12 && 1 <= d.day && d.day as u32
        <= days_in_month_x(d.year as u32, d.month as u32)
}

/// Whether a time lies on the 24-hour clock.
pub fn time_ok(t: &Time) -> (r: bool)
    ensures
        r == time_wf(*t),
{
    t.hour < 24 && t.minute < 60
}

/// Reads a `YYYY-MM-DD` token into a calendar-checked date.
pub fn parse_date(tok: &str) -> (r: Option<Date>)
    ensures
        r == spec_parse_date(tok@),
        r is Some ==> date_wf(r->Some_0),
{
    let n = tok.unicode_len();
    if n != 10 {
        return None;
    }
    if tok.get_char(4) != '-' || tok.get_char(7) != '-' {
        return None;
    }
    let c0 = tok.get_char(0);
    let c1 = tok.get_char(1);
    let c2 = tok.get_char(2);
    let c3 = tok.get_char(3);
    let c5 = tok.get_char(5);
    let c6 = tok.get_char(6);
    let c8 = tok.get_char(8);
    let c9 = tok.get_char(9);
    if !(is_digit_c(c0) && is_digit_c(c1) && is_digit_c(c2) && is_digit_c(c3) && is_digit_c(c5)
        && is_digit_c(c6) && is_digit_c(c8) && is_digit_c(c9)) {
        return None;
    }
    let y: u32 = (c0 as u32 - 0x30) * 1000 + (c1 as u32 - 0x30) * 100 + (c2 as u32 - 0x30) * 10 + (
    c3 as u32 - 0x30);
    let m: u32 = (c5 as u32 - 0x30) * 10 + (c6 as u32 - 0x30);
    let d: u32 = (c8 as u32 - 0x30) * 10 + (c9 as u32 - 0x30);
    proof {
        assert(tok@.subrange(0, 4)[0] == tok@[0]);
        assert(tok@.subrange(0, 4)[1] == tok@[1]);
        assert(tok@.subrange(0, 4)[2] == tok@[2]);
        assert(tok@.subrange(0, 4)[3] == tok@[3]);
        assert(tok@.subrange(5, 7)[0] == tok@[5]);
        assert(tok@.subrange(5, 7)[1] == tok@[6]);
        assert(tok@.subrange(8, 10)[0] == tok@[8]);
        assert(tok@.subrange(8, 10)[1] == tok@[9]);
    }
    if m < 1 || m > 12 {
        return None;
    }
    if d < 1 || d > days_in_month_x(y, m) {
        return None;
    }
    Some(Date { year: y as u16, month: m as u8, day: d as u8 })
}

/// Reads an `HHMM` token into a range-checked time.
pub fn parse_time(tok: &str) -> (r: Option<Time>)
    ensures
        r == spec_parse_time(tok@),
        r is Some ==> time_wf(r->Some_0),
{
    let n = tok.unicode_len();
    if n != 4 {
        return None;
    }
    let c0 = tok.get_char(0);
    let c1 = tok.get_char(1);
    let c2 = tok.get_char(2);
    let c3 = tok.get_char(3);
    if !(is_digit_c(c0) && is_digit_c(c1) && is_digit_c(c2) && is_digit_c(c3)) {
        return None;
    }
    let h: u32 = (c0 as u32 - 0x30) * 10 + (c1 as u32 - 0x30);
    let mi: u32 = (c2 as u32 - 0x30) * 10 + (c3 as u32 - 0x30);
    proof {
        assert(tok@.subrange(0, 2)[0] == tok@[0]);
        assert(tok@.subrange(0, 2)[1] == tok@[1]);
        assert(tok@.subrange(2, 4)[0] == tok@[2]);
        assert(tok@.subrange(2, 4)[1] == tok@[3]);
    }
    if h >= 24 || mi >= 60 {
        return None;
    }
    Some(Time { hour: h as u8, minute: mi as u8 })
}

// ---------------------------------------------------------------------------
// Reading and rendering invert each other
// ---------------------------------------------------------------------------

proof fn lemma_fmt2_val(n: int)
    requires
        0 <= n < 100,
    ensures
        spec_fmt2(n).len() == 2,
        is_digit_char(spec_fmt2(n)[0]),
        is_digit_char(spec_fmt2(n)[1]),
        val2(spec_fmt2(n)) == n,
{
}

#[verifier::rlimit(60)]
proof fn lemma_fmt4_val(n: int)
    requires
        0 <= n < 10000,
    ensures
        spec_fmt4(n).len() == 4,
        forall|i: int| 0 <= i < 4 ==> is_digit_char(spec_fmt4(n)[i]),
        val4(spec_fmt4(n)) == n,
{
    lemma_digit_char_val(n / 1000 % 10, '0');
    lemma_digit_char_val(n / 100 % 10, '0');
    lemma_digit_char_val(n / 10 % 10, '0');
    lemma_digit_char_val(n % 10, '0');
    assert(is_digit_char(spec_fmt4(n)[0]) && is_digit_char(spec_fmt4(n)[1]) && is_digit_char(
        spec_fmt4(n)[2],
    ) && is_digit_char(spec_fmt4(n)[3]));
    assert(n / 1000 % 10 == n / 1000);
    assert(n / 1000 * 1000 + n / 100 % 10 * 100 + n / 10 % 10 * 10 + n % 10 == n);
}

/// A well-formed date's rendering reads back as exactly that date.
pub proof fn lemma_date_round_trip(d: Date)
    requires
        date_wf(d),
    ensures
        spec_parse_date(spec_fmt_date(d)) == Some(d),
        spec_fmt_date(d).len() == 10,
        forall|i: int| 0 <= i < 10 ==> !is_ws_char(spec_fmt_date(d)[i]),
{
    let s = spec_fmt_date(d);
    lemma_fmt4_val(d.year as int);
    lemma_fmt2_val(d.month as int);
    lemma_fmt2_val(d.day as int);
    assert(s[0] == spec_fmt4(d.year as int)[0]);
    assert(s[1] == spec_fmt4(d.year as int)[1]);
    assert(s[2] == spec_fmt4(d.year as int)[2]);
    assert(s[3] == spec_fmt4(d.year as int)[3]);
    assert(s[4] == '-');
    assert(s[5] == spec_fmt2(d.month as int)[0]);
    assert(s[6] == spec_fmt2(d.month as int)[1]);
    assert(s[7] == '-');
    assert(s[8] == spec_fmt2(d.day as int)[0]);
    assert(s[9] == spec_fmt2(d.day as int)[1]);
    assert(date_token_ok(s));
    assert(s.subrange(0, 4) =~= spec_fmt4(d.year as int));
    assert(s.subrange(5, 7) =~= spec_fmt2(d.month as int));
    assert(s.subrange(8, 10) =~= spec_fmt2(d.day as int));
    assert(spec_date_of(s) == d);
}

/// A well-formed time's rendering reads back as exactly that time.
pub proof fn lemma_time_round_trip(t: Time)
    requires
        time_wf(t),
    ensures
        spec_parse_time(spec_fmt_time(t)) == Some(t),
        spec_fmt_time(t).len() == 4,
        forall|i: int| 0 <= i < 4 ==> !is_ws_char(spec_fmt_time(t)[i]),
{
    let s = spec_fmt_time(t);
    lemma_fmt2_val(t.hour as int);
    lemma_fmt2_val(t.minute as int);
    assert(s[0] == spec_fmt2(t.hour as int)[0]);
    assert(s[1] == spec_fmt2(t.hour as int)[1]);
    assert(s[2] == spec_fmt2(t.minute as int)[0]);
    assert(s[3] == spec_fmt2(t.minute as int)[1]);
    assert(time_token_ok(s));
    assert(s.subrange(0, 2) =~= spec_fmt2(t.hour as int));
    assert(s.subrange(2, 4) =~= spec_fmt2(t.minute as int));
    assert(spec_time_of(s) == t);
}

proof fn lemma_val2_fmt(s: Seq<char>)
    requires
        s.len() == 2,
        is_digit_char(s[0]),
        is_digit_char(s[1]),
    ensures
        0 <= val2(s) < 100,
        spec_fmt2(val2(s)) == s,
{
    lemma_digit_char_val(0, s[0]);
    lemma_digit_char_val(0, s[1]);
    let a = digit_val(s[0]);
    let b = digit_val(s[1]);
    let n = val2(s);
    assert(n == a * 10 + b);
    assert(n / 10 == a);
    assert(n % 10 == b);
    assert(spec_fmt2(n) =~= s);
}

proof fn lemma_val4_fmt(s: Seq<char>)
    requires
        s.len() == 4,
        is_digit_char(s[0]),
        is_digit_char(s[1]),
        is_digit_char(s[2]),
        is_digit_char(s[3]),
    ensures
        0 <= val4(s) < 10000,
        spec_fmt4(val4(s)) == s,
{
    lemma_digit_char_val(0, s[0]);
    lemma_digit_char_val(0, s[1]);
    lemma_digit_char_val(0, s[2]);
    lemma_digit_char_val(0, s[3]);
    let a = digit_val(s[0]);
    let b = digit_val(s[1]);
    let c = digit_val(s[2]);
    let d = digit_val(s[3]);
    let n = val4(s);
    assert(n == a * 1000 + b * 100 + c * 10 + d);
    assert(n / 1000 == a);
    assert(n / 100 == a * 10 + b);
    assert(n / 10 == a * 100 + b * 10 + c);
    assert(n / 1000 % 10 == a);
    assert(n / 100 % 10 == b);
    assert(n / 10 % 10 == c);
    assert(n % 10 == d);
    assert(spec_fmt4(n) =~= s);
}

/// A token that reads as a date is exactly that date's rendering.
#[verifier::rlimit(60)]
pub proof fn lemma_parse_date_exact(s: Seq<char>, d: Date)
    requires
        spec_parse_date(s) == Some(d),
    ensures
        spec_fmt_date(d) == s,
        date_wf(d),
{
    assert(date_token_ok(s) && date_wf(spec_date_of(s)) && d == spec_date_of(s));
    lemma_val4_fmt(s.subrange(0, 4));
    lemma_val2_fmt(s.subrange(5, 7));
    lemma_val2_fmt(s.subrange(8, 10));
    assert(d.year as int == val4(s.subrange(0, 4)));
    assert(d.month as int == val2(s.subrange(5, 7)));
    assert(d.day as int == val2(s.subrange(8, 10)));
    assert(spec_fmt_date(d) =~= s);
}

/// A token that reads as a time is exactly that time's rendering.
pub proof fn lemma_parse_time_exact(s: Seq<char>, t: Time)
    requires
        spec_parse_time(s) == Some(t),
    ensures
        spec_fmt_time(t) == s,
        time_wf(t),
{
    assert(time_token_ok(s) && time_wf(spec_time_of(s)) && t == spec_time_of(s));
    lemma_val2_fmt(s.subrange(0, 2));
    lemma_val2_fmt(s.subrange(2, 4));
    assert(t.hour as int == val2(s.subrange(0, 2)));
    assert(t.minute as int == val2(s.subrange(2, 4)));
    assert(spec_fmt_time(t) =~= s);
}

} // verus!
