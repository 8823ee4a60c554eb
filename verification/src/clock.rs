//! Next-occurrence calculation over IANA time zones, and parsing of the
//! requested wall-clock time (12-hour with am/pm suffix, or bare 24-hour).

use vstd::prelude::*;
use std::str::FromStr;
use chrono::Datelike;
use chrono::TimeZone;
use crate::token::{all_digits, digits_value, is_digit_char, lemma_digits_prefix_le, str_chars};
use crate::types::SchedulingError;

verus! {

/// Whether the name resolves to a known IANA zone.
pub uninterp spec fn is_valid_tz(name: Seq<char>) -> bool;

/// The local calendar date (year, month, day) of a UTC instant in a zone.
pub uninterp spec fn local_civil_date(name: Seq<char>, utc_ms: int) -> Option<(int, int, int)>;

/// The earliest UTC instant at which the local wall clock in a zone reads
/// the given fields, with seconds and subseconds zero.
pub uninterp spec fn civil_to_utc_ms(
    name: Seq<char>,
    y: int,
    mo: int,
    d: int,
    h: int,
    mi: int,
) -> Option<int>;

/// Relies on chrono_tz's Tz::from_str: a pure lookup in the IANA name table.
#[verifier::external_body]
fn tz_is_valid(name: &str) -> (r: bool)
    ensures
        r == is_valid_tz(name@),
{
    chrono_tz::Tz::from_str(name).is_ok()
}

/// Relies on chrono's DateTime::from_timestamp_millis and with_timezone
/// (Datelike year/month/day): the local calendar date of an instant, a
/// function of the zone name and the instant alone. Month and day ranges,
/// and the year bound, are what chrono documents of Datelike and of its
/// representable range.
#[verifier::external_body]
fn tz_local_date(name: &str, utc_ms: i64) -> (r: Option<(i32, u32, u32)>)
    ensures
        match r {
            Some(v) => {
                &&& local_civil_date(name@, utc_ms as int) == Some(
                    (v.0 as int, v.1 as int, v.2 as int),
                )
                &&& 1 <= v.1 <= 12
                &&& 1 <= v.2 <= 31
                &&& -300000 <= v.0 <= 300000
            },
            None => local_civil_date(name@, utc_ms as int) is None,
        },
{
    let tz = match chrono_tz::Tz::from_str(name) {
        Ok(t) => t,
        Err(_) => return None,
    };
    let utc = chrono::DateTime::<chrono::Utc>::from_timestamp_millis(utc_ms)?;
    let local = utc.with_timezone(&tz);
    Some((local.year(), local.month(), local.day()))
}

/// Relies on chrono_tz's with_ymd_and_hms: the earliest instant at which the
/// local wall clock reads the given fields; none when the zone is unknown or
/// the local time is not constructible (a spring-forward gap, or fields out
/// of range).
#[verifier::external_body]
fn tz_civil_to_utc(name: &str, y: i32, mo: u32, d: u32, h: u32, mi: u32) -> (r: Option<i64>)
    ensures
        match r {
            Some(t) => civil_to_utc_ms(
                name@,
                y as int,
                mo as int,
                d as int,
                h as int,
                mi as int,
            ) == Some(t as int),
            None => civil_to_utc_ms(
                name@,
                y as int,
                mo as int,
                d as int,
                h as int,
                mi as int,
            ) is None,
        },
{
    let tz = match chrono_tz::Tz::from_str(name) {
        Ok(t) => t,
        Err(_) => return None,
    };
    match tz.with_ymd_and_hms(y, mo, d, h, mi, 0) {
        chrono::offset::LocalResult::Single(t) => Some(t.timestamp_millis()),
        chrono::offset::LocalResult::Ambiguous(a, _) => Some(a.timestamp_millis()),
        chrono::offset::LocalResult::None => None,
    }
}

/// Leap-year rule, stated on the year shifted by a multiple of 400 so the
/// remainder arithmetic stays on non-negative values.
pub open spec fn is_leap_year(y: int) -> bool {
    let yy = y + 400000;
    (yy % 4 == 0 && yy % 100 != 0) || yy % 400 == 0
}

pub open spec fn days_in_month(y: int, mo: int) -> int {
    if mo == 2 {
        if is_leap_year(y) {
            29
        } else {
            28
        }
    } else if mo == 4 || mo == 6 || mo == 9 || mo == 11 {
        30
    } else {
        31
    }
}

/// The calendar day after the given one.
pub open spec fn next_day_spec(y: int, mo: int, d: int) -> (int, int, int) {
    if d < days_in_month(y, mo) {
        (y, mo, d + 1)
    } else if mo < 12 {
        (y, mo + 1, 1)
    } else {
        (y + 1, 1, 1)
    }
}

/// The calendar day after the given one.
pub fn next_civil_day(y: i32, mo: u32, d: u32) -> (r: (i32, u32, u32))
    requires
        1 <= mo <= 12,
        1 <= d <= 31,
        -300000 <= y <= 300000,
    ensures
        (r.0 as int, r.1 as int, r.2 as int) == next_day_spec(y as int, mo as int, d as int),
{
    let yy: u64 = (y as i64 + 400000) as u64;
    let leap = (yy % 4 == 0 && yy % 100 != 0) || yy % 400 == 0;
    let dim: u32 = if mo == 2 {
        if leap {
            29
        } else {
            28
        }
    } else if mo == 4 || mo == 6 || mo == 9 || mo == 11 {
        30
    } else {
        31
    };
    if d < dim {
        (y, mo, d + 1)
    } else if mo < 12 {
        (y, mo + 1, 1)
    } else {
        (y + 1, 1, 1)
    }
}

/// What the next-occurrence computation yields: the candidate instant today
/// in the zone's local calendar, or the same wall-clock time one calendar
/// day later when the candidate is not strictly in the future.
pub open spec fn next_occurrence_spec(hour: int, minute: int, tz: Seq<char>, now_ms: int) -> Result<
    int,
    SchedulingError,
> {
    if !is_valid_tz(tz) {
        Err(SchedulingError::UnknownTimeZone)
    } else {
        match local_civil_date(tz, now_ms) {
            None => Err(SchedulingError::InvalidTime),
            Some((y, mo, d)) => match civil_to_utc_ms(tz, y, mo, d, hour, minute) {
                None => Err(SchedulingError::InvalidTime),
                Some(t) => if t > now_ms {
                    Ok(t)
                } else {
                    let (y2, m2, d2) = next_day_spec(y, mo, d);
                    match civil_to_utc_ms(tz, y2, m2, d2, hour, minute) {
                        Some(t2) => Ok(t2),
                        None => Err(SchedulingError::InvalidTime),
                    }
                },
            },
        }
    }
}

/// Computes the next future instant at which local wall-clock time in the
/// zone equals hour:minute:00.000, seen from `now_ms`. Fails when the zone
/// name does not resolve, or when the wall-clock fields cannot be
/// constructed in that zone.
pub fn next_occurrence(hour: u32, minute: u32, time_zone: &str, now_ms: i64) -> (r: Result<
    i64,
    SchedulingError,
>)
    requires
        hour <= 23,
        minute <= 59,
    ensures
        match r {
            Ok(t) => next_occurrence_spec(hour as int, minute as int, time_zone@, now_ms as int)
                == Ok::<int, SchedulingError>(t as int),
            Err(e) => next_occurrence_spec(hour as int, minute as int, time_zone@, now_ms as int)
                == Err::<int, SchedulingError>(e),
        },
{
    if !tz_is_valid(time_zone) {
        return Err(SchedulingError::UnknownTimeZone);
    }
    let (y, mo, d) = match tz_local_date(time_zone, now_ms) {
        Some(v) => v,
        None => {
            return Err(SchedulingError::InvalidTime);
        },
    };
    let t = match tz_civil_to_utc(time_zone, y, mo, d, hour, minute) {
        Some(v) => v,
        None => {
            return Err(SchedulingError::InvalidTime);
        },
    };
    if t > now_ms {
        return Ok(t);
    }
    let (y2, m2, d2) = next_civil_day(y, mo, d);
    match tz_civil_to_utc(time_zone, y2, m2, d2, hour, minute) {
        Some(v) => Ok(v),
        None => Err(SchedulingError::InvalidTime),
    }
}

/// Unicode whitespace, as the standard's White_Space property lists it.
pub open spec fn is_space_char(c: char) -> bool {
    let v = c as int;
    v == 0x20 || (0x09 <= v && v <= 0x0D) || v == 0x85 || v == 0xA0 || v == 0x1680 || (0x2000 <= v
        && v <= 0x200A) || v == 0x2028 || v == 0x2029 || v == 0x202F || v == 0x205F || v == 0x3000
}

pub open spec fn trim_front_spec(s: Seq<char>) -> Seq<char>
    decreases s.len(),
{
    if s.len() > 0 && is_space_char(s[0]) {
        trim_front_spec(s.drop_first())
    } else {
        s
    }
}

pub open spec fn trim_back_spec(s: Seq<char>) -> Seq<char>
    decreases s.len(),
{
    if s.len() > 0 && is_space_char(s.last()) {
        trim_back_spec(s.drop_last())
    } else {
        s
    }
}

pub open spec fn trim_spec(s: Seq<char>) -> Seq<char> {
    trim_back_spec(trim_front_spec(s))
}

/// ASCII lower-casing of one character.
pub open spec fn lower_char(c: char) -> char {
    if 65 <= c as int && c as int <= 90 {
        ((c as int) + 32) as char
    } else {
        c
    }
}

/// The normalized request text: trimmed, ASCII lower-cased, spaces removed.
pub open spec fn normalize_spec(s: Seq<char>) -> Seq<char> {
    trim_spec(s).map_values(|c: char| lower_char(c)).filter(|c: char| c != ' ')
}

/// First index of a colon at or after `from`, or the length.
pub open spec fn find_colon(s: Seq<char>, from: int) -> int
    decreases s.len() - from,
{
    if from < 0 || from >= s.len() {
        s.len() as int
    } else if s[from] == ':' {
        from
    } else {
        find_colon(s, from + 1)
    }
}

/// Unsigned decimal parse as the standard library does it: an optional `+`,
/// then only digits, value within `u32` range.
pub open spec fn parse_u32_digits(digits: Seq<char>) -> Option<int> {
    if !all_digits(digits) {
        None
    } else if digits_value(digits) <= u32::MAX as int {
        Some(digits_value(digits))
    } else {
        None
    }
}

pub open spec fn parse_u32_spec(s: Seq<char>) -> Option<int> {
    if s.len() > 0 && s[0] == '+' {
        parse_u32_digits(s.drop_first())
    } else {
        parse_u32_digits(s)
    }
}

/// What parsing a clock-time request yields, on the normalized text: an
/// hour/minute pair split on one optional colon, with an am/pm suffix
/// coercing a 1-12 hour, or a bare 24-hour value.
pub open spec fn parse_body_spec(body: Seq<char>, has_am: bool, has_pm: bool) -> Option<
    (int, int),
> {
    let c1 = find_colon(body, 0);
    let c2 = find_colon(body, c1 + 1);
    let h_opt = parse_u32_spec(body.take(c1));
    let m_opt = if c1 == body.len() {
        Some(0int)
    } else {
        parse_u32_spec(body.subrange(c1 + 1, c2))
    };
    match h_opt {
        None => None,
        Some(h) => match m_opt {
            None => None,
            Some(m) => if c2 < body.len() || m > 59 {
                None
            } else if (has_am || has_pm) && !(1 <= h && h <= 12) {
                None
            } else if has_am {
                Some((h % 12, m))
            } else if has_pm {
                Some((h % 12 + 12, m))
            } else if h <= 23 {
                Some((h, m))
            } else {
                None
            },
        },
    }
}

pub open spec fn parse_clock_time_spec(input: Seq<char>) -> Option<(int, int)> {
    let norm = normalize_spec(input);
    if norm.len() == 0 {
        None
    } else {
        let has_am = norm.len() >= 2 && norm[norm.len() - 2] == 'a' && norm.last() == 'm';
        let has_pm = norm.len() >= 2 && norm[norm.len() - 2] == 'p' && norm.last() == 'm';
        let body = if has_am || has_pm {
            norm.take(norm.len() - 2)
        } else {
            norm
        };
        parse_body_spec(body, has_am, has_pm)
    }
}

/// The bounds of the trimmed text: `trim_spec(chars@)` is exactly the range
/// `lo..hi`.
pub fn trim_bounds(chars: &Vec<char>) -> (r: (usize, usize))
    ensures
        r.0 <= r.1 <= chars@.len(),
        trim_spec(chars@) == chars@.subrange(r.0 as int, r.1 as int),
{
    let n = chars.len();
    let mut lo: usize = 0;
    proof {
        assert(chars@.skip(0) =~= chars@);
    }
    while lo < n && is_space(chars[lo])
        invariant
            n == chars@.len(),
            0 <= lo <= n,
            trim_front_spec(chars@) == trim_front_spec(chars@.skip(lo as int)),
        decreases n - lo,
    {
        proof {
            assert(chars@.skip(lo as int).drop_first() =~= chars@.skip(lo + 1));
            assert(chars@.skip(lo as int)[0] == chars@[lo as int]);
        }
        lo += 1;
    }
    proof {
        if lo < n {
            assert(chars@.skip(lo as int)[0] == chars@[lo as int]);
        }
        assert(trim_front_spec(chars@.skip(lo as int)) == chars@.skip(lo as int));
    }
    let mut hi: usize = n;
    while hi > lo && is_space(chars[hi - 1])
        invariant
            n == chars@.len(),
            lo <= hi <= n,
            trim_front_spec(chars@) == chars@.skip(lo as int),
            trim_back_spec(chars@.skip(lo as int)) == trim_back_spec(
                chars@.subrange(lo as int, hi as int),
            ),
        decreases hi,
    {
        proof {
            let cur = chars@.subrange(lo as int, hi as int);
            assert(cur.last() == chars@[hi - 1]);
            assert(cur.drop_last() =~= chars@.subrange(lo as int, hi - 1));
        }
        hi -= 1;
    }
    proof {
        let cur = chars@.subrange(lo as int, hi as int);
        if hi > lo {
            assert(cur.last() == chars@[hi - 1]);
        }
        assert(trim_back_spec(cur) == cur);
        assert(trim_spec(chars@) == chars@.subrange(lo as int, hi as int));
    }
    (lo, hi)
}

/// Builds the normalized request text.
fn normalize_input(chars: &Vec<char>) -> (r: Vec<char>)
    ensures
        r@ == normalize_spec(chars@),
{
    let n = chars.len();
    let (lo, hi) = trim_bounds(chars);
    let mut out: Vec<char> = Vec::new();
    let mut i = lo;
    proof {
        let e = chars@.subrange(lo as int, lo as int);
        assert(e =~= Seq::<char>::empty());
        reveal(Seq::filter);
        assert(e.map_values(|c: char| lower_char(c)) =~= Seq::<char>::empty());
        assert(out@ =~= e.map_values(|c: char| lower_char(c)).filter(|c: char| c != ' '));
    }
    while i < hi
        invariant
            n == chars@.len(),
            lo <= i <= hi <= n,
            out@ == chars@.subrange(lo as int, i as int).map_values(
                |c: char| lower_char(c),
            ).filter(|c: char| c != ' '),
        decreases hi - i,
    {
        let c = chars[i];
        proof {
            reveal(Seq::filter);
            let pre = chars@.subrange(lo as int, i as int);
            let cur = chars@.subrange(lo as int, i + 1);
            assert(cur.drop_last() =~= pre);
            assert(cur.last() == chars@[i as int]);
            assert(cur.map_values(|c: char| lower_char(c)).drop_last() =~= pre.map_values(
                |c: char| lower_char(c),
            ));
            assert(cur.map_values(|c: char| lower_char(c)).last() == lower_char(
                chars@[i as int],
            ));
            assert(cur.map_values(|c: char| lower_char(c)) =~= pre.map_values(
                |c: char| lower_char(c),
            ).push(lower_char(chars@[i as int])));
        }
        let lc: char = if c >= 'A' && c <= 'Z' {
            (((c as u32) + 32) as u8) as char
        } else {
            c
        };
        proof {
            assert(lc == lower_char(chars@[i as int]));
        }
        if lc != ' ' {
            out.push(lc);
        }
        i += 1;
    }
    out
}

pub fn is_space(c: char) -> (r: bool)
    ensures
        r == is_space_char(c),
{
    c == ' ' || (c >= '\u{09}' && c <= '\u{0D}') || c == '\u{85}' || c == '\u{A0}'
        || c == '\u{1680}' || (c >= '\u{2000}' && c <= '\u{200A}') || c == '\u{2028}'
        || c == '\u{2029}' || c == '\u{202F}' || c == '\u{205F}' || c == '\u{3000}'
}

/// Finds the first colon at or after `from`.
fn find_colon_from(chars: &Vec<char>, from: usize) -> (r: usize)
    ensures
        r as int == find_colon(chars@, from as int),
        r <= chars@.len(),
        from <= chars@.len() ==> from <= r,
{
    let n = chars.len();
    let mut i = from;
    while i < n
        invariant
            n == chars@.len(),
            i >= from,
            find_colon(chars@, from as int) == find_colon(chars@, i as int),
        decreases n - i,
    {
        if chars[i] == ':' {
            return i;
        }
        i += 1;
    }
    n
}

/// Parses the character range as the standard library's u32 parse does.
fn parse_u32_range(chars: &Vec<char>, start: usize, end: usize) -> (r: Option<u32>)
    requires
        start <= end <= chars@.len(),
    ensures
        match r {
            Some(v) => parse_u32_spec(chars@.subrange(start as int, end as int)) == Some(v as int),
            None => parse_u32_spec(chars@.subrange(start as int, end as int)) is None,
        },
{
    let ghost whole = chars@.subrange(start as int, end as int);
    let mut ds: usize = start;
    if start < end && chars[start] == '+' {
        ds = start + 1;
    }
    let ghost digits = chars@.subrange(ds as int, end as int);
    proof {
        if ds > start {
            assert(digits =~= whole.drop_first());
        }
    }
    if ds >= end {
        return None;
    }
    let mut acc: u64 = 0;
    let mut i = ds;
    while i < end
        invariant
            ds <= i <= end,
            start <= ds,
            ds == start || ds == start + 1,
            (ds == start + 1) == (whole.len() > 0 && whole[0] == '+'),
            ds < end <= chars@.len(),
            whole == chars@.subrange(start as int, end as int),
            digits == chars@.subrange(ds as int, end as int),
            digits == (if ds == start {
                whole
            } else {
                whole.drop_first()
            }),
            forall|j: int| ds <= j < i ==> is_digit_char(#[trigger] chars@[j]),
            acc as int == digits_value(digits.take(i - ds)),
            acc <= u32::MAX,
        decreases end - i,
    {
        let c = chars[i];
        proof {
            assert(digits.take(i + 1 - ds).drop_last() =~= digits.take(i - ds));
            assert(digits.take(i + 1 - ds).last() == chars@[i as int]);
        }
        if c < '0' || c > '9' {
            proof {
                assert(!is_digit_char(chars@[i as int]));
                assert(digits[i - ds] == chars@[i as int]);
                assert(!all_digits(digits));
            }
            return None;
        }
        let d = ((c as u32) - 48) as u64;
        proof {
            assert(is_digit_char(chars@[i as int]));
            assert(d as int == chars@[i as int] as int - 48);
        }
        let next = acc * 10 + d;
        if next > u32::MAX as u64 {
            proof {
                if all_digits(digits) {
                    lemma_digits_prefix_le(digits, i + 1 - ds);
                }
            }
            return None;
        }
        acc = next;
        i += 1;
    }
    proof {
        assert(digits.take(end - ds) =~= digits);
        assert(all_digits(digits));
    }
    Some(acc as u32)
}

/// Parses a requested wall-clock time: trimmed, lower-cased, spaces removed;
/// a 1-12 hour with an am/pm suffix coerced to 24-hour, or a bare 0-23 hour;
/// minutes 0-59, defaulting to zero when absent.
pub fn parse_clock_time(input: &str) -> (r: Option<(u32, u32)>)
    ensures
        match r {
            Some((h, m)) => parse_clock_time_spec(input@) == Some((h as int, m as int)) && h <= 23
                && m <= 59,
            None => parse_clock_time_spec(input@) is None,
        },
{
    let chars = str_chars(input);
    let norm = normalize_input(&chars);
    let n = norm.len();
    if n == 0 {
        return None;
    }
    let mut has_am = false;
    let mut has_pm = false;
    let mut body_len = n;
    if n >= 2 {
        let c1 = norm[n - 2];
        let c2 = norm[n - 1];
        if c1 == 'a' && c2 == 'm' {
            has_am = true;
            body_len = n - 2;
        } else if c1 == 'p' && c2 == 'm' {
            has_pm = true;
            body_len = n - 2;
        }
    }
    let ghost body = if has_am || has_pm {
        norm@.take(n - 2)
    } else {
        norm@
    };
    proof {
        assert(norm@.last() == norm@[n - 1]);
        assert(body =~= norm@.take(body_len as int));
        assert(body == norm@.take(body_len as int));
        assert forall|j: int| body.len() <= j < norm@.len() implies (#[trigger] norm@[j])
            != ':' by {
            assert(j == n - 2 || j == n - 1);
        }
    }
    let colon1 = find_colon_from(&norm, 0);
    proof {
        lemma_find_colon_prefix(norm@, body, 0);
    }
    let c1 = if colon1 < body_len {
        colon1
    } else {
        body_len
    };
    proof {
        assert(c1 as int == find_colon(body, 0));
    }
    let from2 = if c1 < n {
        c1 + 1
    } else {
        n
    };
    let colon2 = find_colon_from(&norm, from2);
    proof {
        lemma_find_colon_prefix(norm@, body, c1 + 1);
        if c1 >= n {
            lemma_find_colon_no_hit(norm@, n as int);
            lemma_find_colon_no_hit(norm@, c1 + 1);
        }
    }
    let c2 = if colon2 < body_len {
        colon2
    } else {
        body_len
    };
    proof {
        assert(c2 as int == find_colon(body, c1 + 1));
    }
    proof {
        assert(body.take(c1 as int) =~= norm@.subrange(0, c1 as int));
        if c1 < body_len {
            assert(body.subrange(c1 + 1, c2 as int) =~= norm@.subrange(c1 + 1, c2 as int));
        }
    }
    let h = match parse_u32_range(&norm, 0, c1) {
        Some(v) => v,
        None => {
            return None;
        },
    };
    let m: u32 = if c1 == body_len {
        0
    } else {
        match parse_u32_range(&norm, c1 + 1, c2) {
            Some(v) => v,
            None => {
                return None;
            },
        }
    };
    if c2 < body_len || m > 59 {
        return None;
    }
    if has_am || has_pm {
        if h < 1 || h > 12 {
            return None;
        }
        if has_am {
            Some((h % 12, m))
        } else {
            Some((h % 12 + 12, m))
        }
    } else {
        if h <= 23 {
            Some((h, m))
        } else {
            None
        }
    }
}

/// A colon search in the whole normalized text agrees with one in its body
/// prefix: the am/pm suffix holds no colon.
proof fn lemma_find_colon_prefix(whole: Seq<char>, body: Seq<char>, from: int)
    requires
        body == whole.take(body.len() as int),
        body.len() <= whole.len(),
        forall|j: int| body.len() <= j < whole.len() ==> (#[trigger] whole[j]) != ':',
        from >= 0,
    ensures
        find_colon(whole, from) < body.len() ==> find_colon(body, from) == find_colon(whole, from),
        find_colon(whole, from) >= body.len() ==> find_colon(body, from) == body.len(),
    decreases whole.len() - from,
{
    if from >= whole.len() {
    } else if from >= body.len() {
        lemma_find_colon_no_hit(whole, from);
    } else {
        assert(body[from] == whole[from]);
        if whole[from] != ':' {
            lemma_find_colon_prefix(whole, body, from + 1);
        }
    }
}

/// With no colon from `from` on, the search yields the length.
proof fn lemma_find_colon_no_hit(whole: Seq<char>, from: int)
    requires
        from >= 0,
        forall|j: int| from <= j < whole.len() ==> (#[trigger] whole[j]) != ':',
    ensures
        find_colon(whole, from) == whole.len(),
    decreases whole.len() - from,
{
    if from < whole.len() {
        lemma_find_colon_no_hit(whole, from + 1);
    }
}

} // verus!
