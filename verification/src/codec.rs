//! Canonical text form of the durable task file: one JSON array of task
//! records with fixed field names and lowercase status values. The renderer
//! and parser are exact inverses; reloading a persisted collection
//! reproduces the same records.

use vstd::prelude::*;
use crate::token::{chars_to_string, str_chars};
use crate::types::{Lang, ScheduledTask, TaskStatus, TaskV};

verus! {

/// Views of a record collection.
pub open spec fn task_views(s: Seq<ScheduledTask>) -> Seq<TaskV> {
    Seq::new(s.len(), |i: int| s[i]@)
}

pub open spec fn is_digit(c: char) -> bool {
    48 <= c as int && c as int <= 57
}

pub open spec fn dec_digit(v: int) -> char {
    (48 + v) as char
}

pub open spec fn hex_digit(v: int) -> char {
    if v < 10 {
        (48 + v) as char
    } else {
        (87 + v) as char
    }
}

/// Decimal digits of a non-negative value, most significant first.
pub open spec fn rdigits(n: int) -> Seq<char>
    decreases n,
{
    if n <= 9 {
        seq![dec_digit(if n < 0 {
            0
        } else {
            n
        })]
    } else {
        rdigits(n / 10) + seq![dec_digit(n % 10)]
    }
}

/// Rendered integer: sign and digits.
pub open spec fn rint(v: int) -> Seq<char> {
    if v < 0 {
        seq!['-'] + rdigits(-v)
    } else {
        rdigits(v)
    }
}

/// One string character in the file: quote and backslash get a two-character
/// escape, control characters a four-digit hexadecimal one, anything else
/// stands as itself.
pub open spec fn esc_char(c: char) -> Seq<char> {
    if c == '"' {
        seq!['\\', '"']
    } else if c == '\\' {
        seq!['\\', '\\']
    } else if 0 <= c as int && (c as int) < 32 {
        seq!['\\', 'u', '0', '0', hex_digit(c as int / 16), hex_digit(c as int % 16)]
    } else {
        seq![c]
    }
}

pub open spec fn esc(s: Seq<char>) -> Seq<char>
    decreases s.len(),
{
    if s.len() == 0 {
        Seq::empty()
    } else {
        esc_char(s[0]) + esc(s.drop_first())
    }
}

pub open spec fn rstring(s: Seq<char>) -> Seq<char> {
    seq!['"'] + esc(s) + seq!['"']
}

pub open spec fn rlang(l: Lang) -> Seq<char> {
    match l {
        Lang::En => "en"@,
        Lang::Es => "es"@,
    }
}

pub open spec fn rstatus(s: TaskStatus) -> Seq<char> {
    match s {
        TaskStatus::Pending => "pending"@,
        TaskStatus::Executed => "executed"@,
        TaskStatus::Failed => "failed"@,
    }
}

pub open spec fn ropt_int(v: Option<int>) -> Seq<char> {
    match v {
        Some(t) => rint(t),
        None => "null"@,
    }
}

pub open spec fn ropt_string(v: Option<Seq<char>>) -> Seq<char> {
    match v {
        Some(s) => rstring(s),
        None => "null"@,
    }
}

/// The leading fields of one rendered record.
pub open spec fn rtask_head(t: TaskV) -> Seq<char> {
    "{\"id\":"@ + rstring(t.id) + ",\"userId\":"@ + rint(t.user_id) + ",\"lang\":\""@ + rlang(
        t.lang,
    ) + "\",\"locale\":"@ + rstring(t.locale) + ",\"timeZone\":"@ + rstring(t.time_zone)
}

/// The trailing fields of one rendered record.
pub open spec fn rtask_rest(t: TaskV) -> Seq<char> {
    ",\"scheduledTime\":"@ + rint(t.scheduled_time) + ",\"createdAt\":"@ + rint(t.created_at)
        + ",\"executedAt\":"@ + ropt_int(t.executed_at) + ",\"status\":\""@ + rstatus(t.status)
        + "\",\"error\":"@ + ropt_string(t.error) + "}"@
}

/// One rendered record.
#[verifier::opaque]
pub open spec fn rtask(t: TaskV) -> Seq<char> {
    rtask_head(t) + rtask_rest(t)
}

/// What follows the first record: a comma-separated rest and the closing
/// bracket.
pub open spec fn rtail(ts: Seq<TaskV>) -> Seq<char>
    decreases ts.len(),
{
    if ts.len() == 0 {
        seq![']']
    } else {
        seq![','] + rtask(ts[0]) + rtail(ts.drop_first())
    }
}

/// The whole rendered file.
pub open spec fn render_tasks_spec(ts: Seq<TaskV>) -> Seq<char> {
    if ts.len() == 0 {
        "[]"@
    } else {
        seq!['['] + rtask(ts[0]) + rtail(ts.drop_first())
    }
}

// ---------------------------------------------------------------------------
// Parsing, on the remaining input.
pub open spec fn p_lit(s: Seq<char>, lit: Seq<char>) -> Option<Seq<char>> {
    if s.len() >= lit.len() && s.take(lit.len() as int) == lit {
        Some(s.skip(lit.len() as int))
    } else {
        None
    }
}

pub open spec fn hex_val(c: char) -> int {
    if 48 <= c as int && c as int <= 57 {
        c as int - 48
    } else if 97 <= c as int && c as int <= 102 {
        c as int - 87
    } else {
        -1
    }
}

/// The characters of a string body up to its closing quote.
pub open spec fn p_strchars(s: Seq<char>) -> Option<(Seq<char>, Seq<char>)>
    decreases s.len(),
{
    if s.len() == 0 {
        None
    } else if s[0] == '"' {
        Some((Seq::empty(), s.drop_first()))
    } else if s[0] == '\\' {
        if s.len() >= 2 && (s[1] == '"' || s[1] == '\\') {
            match p_strchars(s.skip(2)) {
                Some((t, r)) => Some((seq![s[1]] + t, r)),
                None => None,
            }
        } else if s.len() >= 6 && s[1] == 'u' && hex_val(s[2]) >= 0 && hex_val(s[3]) >= 0 && hex_val(
            s[4],
        ) >= 0 && hex_val(s[5]) >= 0 {
            let v = ((hex_val(s[2]) * 16 + hex_val(s[3])) * 16 + hex_val(s[4])) * 16 + hex_val(
                s[5],
            );
            if v < 0xD800 {
                match p_strchars(s.skip(6)) {
                    Some((t, r)) => Some((seq![v as char] + t, r)),
                    None => None,
                }
            } else {
                None
            }
        } else {
            None
        }
    } else if 0 <= s[0] as int && (s[0] as int) < 32 {
        None
    } else {
        match p_strchars(s.drop_first()) {
            Some((t, r)) => Some((seq![s[0]] + t, r)),
            None => None,
        }
    }
}

pub open spec fn p_string(s: Seq<char>) -> Option<(Seq<char>, Seq<char>)> {
    if s.len() > 0 && s[0] == '"' {
        p_strchars(s.drop_first())
    } else {
        None
    }
}

/// Shifting already-read digits under the ones of `m`.
pub open spec fn dshift(acc: int, m: int) -> int
    decreases m,
{
    if m <= 9 {
        acc * 10 + (if m < 0 {
            0
        } else {
            m
        })
    } else {
        dshift(acc, m / 10) * 10 + m % 10
    }
}

/// A maximal run of digits folded into a value.
pub open spec fn p_digits_loop(s: Seq<char>, acc: int) -> (int, Seq<char>)
    decreases s.len(),
{
    if s.len() > 0 && is_digit(s[0]) {
        p_digits_loop(s.drop_first(), acc * 10 + (s[0] as int - 48))
    } else {
        (acc, s)
    }
}

/// At least one digit, then the value.
pub open spec fn p_digits(s: Seq<char>) -> Option<(int, Seq<char>)> {
    if s.len() > 0 && is_digit(s[0]) {
        Some(p_digits_loop(s, 0))
    } else {
        None
    }
}

/// A signed 64-bit value; anything out of range fails.
pub open spec fn p_i64(s: Seq<char>) -> Option<(int, Seq<char>)> {
    if s.len() > 0 && s[0] == '-' {
        match p_digits(s.drop_first()) {
            Some((n, r)) => if -n >= i64::MIN as int {
                Some((-n, r))
            } else {
                None
            },
            None => None,
        }
    } else {
        match p_digits(s) {
            Some((n, r)) => if n <= i64::MAX as int {
                Some((n, r))
            } else {
                None
            },
            None => None,
        }
    }
}

pub open spec fn p_opt_i64(s: Seq<char>) -> Option<(Option<int>, Seq<char>)> {
    match p_lit(s, "null"@) {
        Some(r) => Some((None, r)),
        None => match p_i64(s) {
            Some((v, r)) => Some((Some(v), r)),
            None => None,
        },
    }
}

pub open spec fn p_opt_string(s: Seq<char>) -> Option<(Option<Seq<char>>, Seq<char>)> {
    match p_lit(s, "null"@) {
        Some(r) => Some((None, r)),
        None => match p_string(s) {
            Some((v, r)) => Some((Some(v), r)),
            None => None,
        },
    }
}

pub open spec fn p_lang(s: Seq<char>) -> Option<(Lang, Seq<char>)> {
    match p_lit(s, "en"@) {
        Some(r) => Some((Lang::En, r)),
        None => match p_lit(s, "es"@) {
            Some(r) => Some((Lang::Es, r)),
            None => None,
        },
    }
}

pub open spec fn p_status(s: Seq<char>) -> Option<(TaskStatus, Seq<char>)> {
    match p_lit(s, "pending"@) {
        Some(r) => Some((TaskStatus::Pending, r)),
        None => match p_lit(s, "executed"@) {
            Some(r) => Some((TaskStatus::Executed, r)),
            None => match p_lit(s, "failed"@) {
                Some(r) => Some((TaskStatus::Failed, r)),
                None => None,
            },
        },
    }
}

/// One record.
pub open spec fn p_task(s: Seq<char>) -> Option<(TaskV, Seq<char>)> {
    match p_lit(s, "{\"id\":"@) {
        None => None,
        Some(s1) => match p_string(s1) {
            None => None,
            Some((id, s2)) => match p_lit(s2, ",\"userId\":"@) {
                None => None,
                Some(s3) => match p_i64(s3) {
                    None => None,
                    Some((user_id, s4)) => match p_lit(s4, ",\"lang\":\""@) {
                        None => None,
                        Some(s5) => match p_lang(s5) {
                            None => None,
                            Some((lang, s6)) => match p_lit(s6, "\",\"locale\":"@) {
                                None => None,
                                Some(s7) => match p_string(s7) {
                                    None => None,
                                    Some((locale, s8)) => match p_lit(s8, ",\"timeZone\":"@) {
                                        None => None,
                                        Some(s9) => match p_string(s9) {
                                            None => None,
                                            Some((time_zone, s10)) => p_task_rest(
                                                s10,
                                                id,
                                                user_id,
                                                lang,
                                                locale,
                                                time_zone,
                                            ),
                                        },
                                    },
                                },
                            },
                        },
                    },
                },
            },
        },
    }
}

/// The trailing fields of one record.
pub open spec fn p_task_rest(
    s: Seq<char>,
    id: Seq<char>,
    user_id: int,
    lang: Lang,
    locale: Seq<char>,
    time_zone: Seq<char>,
) -> Option<(TaskV, Seq<char>)> {
    match p_lit(s, ",\"scheduledTime\":"@) {
        None => None,
        Some(s1) => match p_i64(s1) {
            None => None,
            Some((scheduled_time, s2)) => match p_lit(s2, ",\"createdAt\":"@) {
                None => None,
                Some(s3) => match p_i64(s3) {
                    None => None,
                    Some((created_at, s4)) => match p_lit(s4, ",\"executedAt\":"@) {
                        None => None,
                        Some(s5) => match p_opt_i64(s5) {
                            None => None,
                            Some((executed_at, s6)) => match p_lit(s6, ",\"status\":\""@) {
                                None => None,
                                Some(s7) => match p_status(s7) {
                                    None => None,
                                    Some((status, s8)) => match p_lit(s8, "\",\"error\":"@) {
                                        None => None,
                                        Some(s9) => match p_opt_string(s9) {
                                            None => None,
                                            Some((error, s10)) => match p_lit(s10, "}"@) {
                                                None => None,
                                                Some(s11) => Some(
                                                    (
                                                        TaskV {
                                                            id,
                                                            user_id,
                                                            lang,
                                                            locale,
                                                            time_zone,
                                                            scheduled_time,
                                                            created_at,
                                                            executed_at,
                                                            status,
                                                            error,
                                                        },
                                                        s11,
                                                    ),
                                                ),
                                            },
                                        },
                                    },
                                },
                            },
                        },
                    },
                },
            },
        },
    }
}

/// The records after the first: `,` record, or the closing bracket.
pub open spec fn p_task_list(s: Seq<char>, acc: Seq<TaskV>) -> Option<(Seq<TaskV>, Seq<char>)>
    decreases s.len(),
{
    if s.len() == 0 {
        None
    } else if s[0] == ']' {
        Some((acc, s.drop_first()))
    } else if s[0] == ',' {
        match p_task(s.drop_first()) {
            Some((t, r)) => if r.len() < s.len() {
                p_task_list(r, acc.push(t))
            } else {
                None
            },
            None => None,
        }
    } else {
        None
    }
}

/// The whole file: every record, with nothing left over.
pub open spec fn parse_tasks_spec(s: Seq<char>) -> Option<Seq<TaskV>> {
    if s.len() == 0 || s[0] != '[' {
        None
    } else {
        let s1 = s.drop_first();
        if s1.len() > 0 && s1[0] == ']' {
            if s1.len() == 1 {
                Some(Seq::empty())
            } else {
                None
            }
        } else {
            match p_task(s1) {
                Some((t, r)) => match p_task_list(r, seq![t]) {
                    Some((ts, rest)) => if rest.len() == 0 {
                        Some(ts)
                    } else {
                        None
                    },
                    None => None,
                },
                None => None,
            }
        }
    }
}

// ---------------------------------------------------------------------------
// The parser is the renderer's inverse.
/// Machine-representable record: every numeric field fits a signed 64-bit
/// value. The view of any stored record satisfies this.
pub open spec fn task_in_range(t: TaskV) -> bool {
    &&& i64::MIN as int <= t.user_id <= i64::MAX as int
    &&& i64::MIN as int <= t.scheduled_time <= i64::MAX as int
    &&& i64::MIN as int <= t.created_at <= i64::MAX as int
    &&& match t.executed_at {
        Some(v) => i64::MIN as int <= v <= i64::MAX as int,
        None => true,
    }
}

pub open spec fn tasks_in_range(ts: Seq<TaskV>) -> bool {
    forall|i: int| 0 <= i < ts.len() ==> task_in_range(#[trigger] ts[i])
}

proof fn lemma_lit_rt(lit: Seq<char>, tail: Seq<char>)
    ensures
        p_lit(lit + tail, lit) == Some(tail),
{
    let s = lit + tail;
    assert(s.take(lit.len() as int) =~= lit);
    assert(s.skip(lit.len() as int) =~= tail);
}

proof fn lemma_esc_rt(x: Seq<char>, tail: Seq<char>)
    ensures
        p_strchars(esc(x) + seq!['"'] + tail) == Some((x, tail)),
    decreases x.len(),
{
    let s = esc(x) + seq!['"'] + tail;
    if x.len() == 0 {
        assert(s =~= seq!['"'] + tail);
        assert(s[0] == '"');
        assert(s.drop_first() =~= tail);
    } else {
        let c = x[0];
        let rest = x.drop_first();
        lemma_esc_rt(rest, tail);
        let inner = esc(rest) + seq!['"'] + tail;
        assert(s =~= esc_char(c) + inner);
        if c == '"' {
            assert(s[0] == '\\' && s[1] == '"');
            assert(s.skip(2) =~= inner);
            assert(seq![s[1]] + x.drop_first() =~= x);
        } else if c == '\\' {
            assert(s[0] == '\\' && s[1] == '\\');
            assert(s.skip(2) =~= inner);
            assert(seq![s[1]] + x.drop_first() =~= x);
        } else if 0 <= c as int && (c as int) < 32 {
            assert(s[0] == '\\' && s[1] == 'u' && s[2] == '0' && s[3] == '0');
            assert(s[4] == hex_digit(c as int / 16));
            assert(s[5] == hex_digit(c as int % 16));
            assert(hex_val('0') == 0);
            let hi = c as int / 16;
            let lo = c as int % 16;
            assert(0 <= hi < 2 && 0 <= lo < 16);
            assert(hex_val(hex_digit(hi)) == hi);
            assert(hex_val(hex_digit(lo)) == lo);
            let v = ((hex_val(s[2]) * 16 + hex_val(s[3])) * 16 + hex_val(s[4])) * 16 + hex_val(
                s[5],
            );
            assert(v == hi * 16 + lo);
            assert(v == c as int);
            assert(v < 0xD800);
            assert((v as char) == c);
            assert(s.skip(6) =~= inner);
            assert(seq![v as char] + x.drop_first() =~= x);
        } else {
            assert(s[0] == c);
            assert(s.drop_first() =~= inner);
            assert(seq![s[0]] + x.drop_first() =~= x);
        }
    }
}

proof fn lemma_string_rt(x: Seq<char>, tail: Seq<char>)
    ensures
        p_string(rstring(x) + tail) == Some((x, tail)),
{
    let s = rstring(x) + tail;
    assert(s[0] == '"');
    assert(s.drop_first() =~= esc(x) + seq!['"'] + tail);
    lemma_esc_rt(x, tail);
}

proof fn lemma_rdigits_digits(n: int)
    requires
        n >= 0,
    ensures
        rdigits(n).len() >= 1,
        forall|i: int| 0 <= i < rdigits(n).len() ==> is_digit(#[trigger] rdigits(n)[i]),
    decreases n,
{
    if n <= 9 {
        assert(dec_digit(n) as int == 48 + n);
    } else {
        lemma_rdigits_digits(n / 10);
        assert(dec_digit(n % 10) as int == 48 + n % 10);
        assert(forall|i: int|
            0 <= i < rdigits(n / 10).len() ==> rdigits(n)[i] == rdigits(n / 10)[i]);
        assert(rdigits(n).last() == dec_digit(n % 10));
    }
}

proof fn lemma_dshift_zero(m: int)
    requires
        m >= 0,
    ensures
        dshift(0, m) == m,
    decreases m,
{
    if m > 9 {
        lemma_dshift_zero(m / 10);
        assert(dshift(0, m) == (m / 10) * 10 + m % 10);
    }
}

proof fn lemma_digits_loop_append(m: int, t: Seq<char>, acc: int)
    requires
        m >= 0,
    ensures
        p_digits_loop(rdigits(m) + t, acc) == p_digits_loop(t, dshift(acc, m)),
    decreases m,
{
    if m <= 9 {
        let s = rdigits(m) + t;
        assert(s[0] == dec_digit(m));
        assert(dec_digit(m) as int == 48 + m);
        assert(is_digit(s[0]));
        assert(s.drop_first() =~= t);
    } else {
        let d = dec_digit(m % 10);
        assert(rdigits(m) + t =~= rdigits(m / 10) + (seq![d] + t));
        lemma_digits_loop_append(m / 10, seq![d] + t, acc);
        let s2 = seq![d] + t;
        assert(d as int == 48 + m % 10);
        assert(is_digit(s2[0]));
        assert(s2.drop_first() =~= t);
        assert(p_digits_loop(s2, dshift(acc, m / 10)) == p_digits_loop(
            t,
            dshift(acc, m / 10) * 10 + m % 10,
        ));
    }
}

proof fn lemma_digits_rt(n: int, tail: Seq<char>)
    requires
        n >= 0,
        tail.len() == 0 || !is_digit(tail[0]),
    ensures
        p_digits(rdigits(n) + tail) == Some((n, tail)),
{
    let s = rdigits(n) + tail;
    lemma_rdigits_digits(n);
    assert(s[0] == rdigits(n)[0]);
    assert(is_digit(s[0]));
    lemma_digits_loop_append(n, tail, 0);
    lemma_dshift_zero(n);
    assert(p_digits_loop(tail, n) == (n, tail));
}

proof fn lemma_int_rt(v: int, tail: Seq<char>)
    requires
        i64::MIN as int <= v <= i64::MAX as int,
        tail.len() == 0 || !is_digit(tail[0]),
    ensures
        p_i64(rint(v) + tail) == Some((v, tail)),
{
    if v < 0 {
        let s = rint(v) + tail;
        assert(s[0] == '-');
        assert(s.drop_first() =~= rdigits(-v) + tail);
        lemma_digits_rt(-v, tail);
    } else {
        let s = rint(v) + tail;
        lemma_rdigits_digits(v);
        assert(s[0] == rdigits(v)[0]);
        assert(is_digit(s[0]));
        assert(s[0] != '-');
        lemma_digits_rt(v, tail);
    }
}

proof fn lemma_null_fails_on(s: Seq<char>)
    requires
        s.len() > 0,
        s[0] != 'n',
    ensures
        p_lit(s, "null"@) is None,
{
    reveal_strlit("null");
    if s.len() >= 4 && s.take(4) == "null"@ {
        assert(s.take(4)[0] == s[0]);
        assert(false);
    }
}

proof fn lemma_opt_int_rt(v: Option<int>, tail: Seq<char>)
    requires
        match v {
            Some(t) => i64::MIN as int <= t <= i64::MAX as int,
            None => true,
        },
        tail.len() == 0 || !is_digit(tail[0]),
    ensures
        p_opt_i64(ropt_int(v) + tail) == Some((v, tail)),
{
    match v {
        None => {
            reveal_strlit("null");
            lemma_lit_rt("null"@, tail);
        },
        Some(t) => {
            let s = ropt_int(v) + tail;
            lemma_int_rt(t, tail);
            if t < 0 {
                assert(s[0] == '-');
                lemma_null_fails_on(s);
            } else {
                lemma_rdigits_digits(t);
                assert(s[0] == rdigits(t)[0]);
                assert(is_digit(s[0]));
                lemma_null_fails_on(s);
            }
        },
    }
}

proof fn lemma_opt_string_rt(v: Option<Seq<char>>, tail: Seq<char>)
    ensures
        p_opt_string(ropt_string(v) + tail) == Some((v, tail)),
{
    match v {
        None => {
            reveal_strlit("null");
            lemma_lit_rt("null"@, tail);
        },
        Some(x) => {
            let s = ropt_string(v) + tail;
            assert(s[0] == '"');
            lemma_null_fails_on(s);
            lemma_string_rt(x, tail);
        },
    }
}

proof fn lemma_lang_rt(l: Lang, tail: Seq<char>)
    ensures
        p_lang(rlang(l) + tail) == Some((l, tail)),
{
    reveal_strlit("en");
    reveal_strlit("es");
    match l {
        Lang::En => {
            lemma_lit_rt("en"@, tail);
        },
        Lang::Es => {
            let s = rlang(l) + tail;
            if s.len() >= 2 && s.take(2) == "en"@ {
                assert(s.take(2)[1] == s[1]);
                assert(s[1] == 's');
                assert(false);
            }
            lemma_lit_rt("es"@, tail);
        },
    }
}

proof fn lemma_status_rt(st: TaskStatus, tail: Seq<char>)
    ensures
        p_status(rstatus(st) + tail) == Some((st, tail)),
{
    reveal_strlit("pending");
    reveal_strlit("executed");
    reveal_strlit("failed");
    let s = rstatus(st) + tail;
    match st {
        TaskStatus::Pending => {
            lemma_lit_rt("pending"@, tail);
        },
        TaskStatus::Executed => {
            if s.len() >= 7 && s.take(7) == "pending"@ {
                assert(s.take(7)[0] == s[0]);
                assert(s[0] == 'e');
                assert(false);
            }
            lemma_lit_rt("executed"@, tail);
        },
        TaskStatus::Failed => {
            if s.len() >= 7 && s.take(7) == "pending"@ {
                assert(s.take(7)[0] == s[0]);
                assert(s[0] == 'f');
                assert(false);
            }
            if s.len() >= 8 && s.take(8) == "executed"@ {
                assert(s.take(8)[0] == s[0]);
                assert(s[0] == 'f');
                assert(false);
            }
            lemma_lit_rt("failed"@, tail);
        },
    }
}

#[verifier::rlimit(100)]
proof fn lemma_task_rest_rt(t: TaskV, tail: Seq<char>)
    requires
        task_in_range(t),
    ensures
        p_task_rest(rtask_rest(t) + tail, t.id, t.user_id, t.lang, t.locale, t.time_zone) == Some(
            (t, tail),
        ),
{
    let s = rtask_rest(t) + tail;
    reveal_strlit(",\"scheduledTime\":");
    reveal_strlit(",\"createdAt\":");
    reveal_strlit(",\"executedAt\":");
    reveal_strlit(",\"status\":\"");
    reveal_strlit("\",\"error\":");
    reveal_strlit("}");
    let r10 = "}"@ + tail;
    let r9 = ropt_string(t.error) + r10;
    let r8 = "\",\"error\":"@ + r9;
    let r7 = rstatus(t.status) + r8;
    let r6 = ",\"status\":\""@ + r7;
    let r5 = ropt_int(t.executed_at) + r6;
    let r4 = ",\"executedAt\":"@ + r5;
    let r3 = rint(t.created_at) + r4;
    let r2 = ",\"createdAt\":"@ + r3;
    let r1 = rint(t.scheduled_time) + r2;
    assert(s =~= ",\"scheduledTime\":"@ + r1);
    lemma_lit_rt(",\"scheduledTime\":"@, r1);
    assert(r2[0] == ',');
    lemma_int_rt(t.scheduled_time, r2);
    lemma_lit_rt(",\"createdAt\":"@, r3);
    assert(r4[0] == ',');
    lemma_int_rt(t.created_at, r4);
    lemma_lit_rt(",\"executedAt\":"@, r5);
    assert(r6[0] == ',');
    lemma_opt_int_rt(t.executed_at, r6);
    lemma_lit_rt(",\"status\":\""@, r7);
    lemma_status_rt(t.status, r8);
    lemma_lit_rt("\",\"error\":"@, r9);
    lemma_opt_string_rt(t.error, r10);
    lemma_lit_rt("}"@, tail);
}

#[verifier::rlimit(100)]
proof fn lemma_task_rt(t: TaskV, tail: Seq<char>)
    requires
        task_in_range(t),
    ensures
        p_task(rtask(t) + tail) == Some((t, tail)),
{
    reveal(rtask);
    let s = rtask(t) + tail;
    reveal_strlit("{\"id\":");
    reveal_strlit(",\"userId\":");
    reveal_strlit(",\"lang\":\"");
    reveal_strlit("\",\"locale\":");
    reveal_strlit(",\"timeZone\":");
    let r0 = rtask_rest(t) + tail;
    let q5 = rstring(t.time_zone) + r0;
    let q4 = ",\"timeZone\":"@ + q5;
    let q3 = rstring(t.locale) + q4;
    let q2 = "\",\"locale\":"@ + q3;
    let q1 = rlang(t.lang) + q2;
    let q0 = ",\"lang\":\""@ + q1;
    let m1 = rint(t.user_id) + q0;
    let m0 = ",\"userId\":"@ + m1;
    let h1 = rstring(t.id) + m0;
    assert(s =~= "{\"id\":"@ + h1);
    lemma_lit_rt("{\"id\":"@, h1);
    lemma_string_rt(t.id, m0);
    lemma_lit_rt(",\"userId\":"@, m1);
    assert(q0[0] == ',');
    lemma_int_rt(t.user_id, q0);
    lemma_lit_rt(",\"lang\":\""@, q1);
    lemma_lang_rt(t.lang, q2);
    lemma_lit_rt("\",\"locale\":"@, q3);
    lemma_string_rt(t.locale, q4);
    lemma_lit_rt(",\"timeZone\":"@, q5);
    lemma_string_rt(t.time_zone, r0);
    lemma_task_rest_rt(t, tail);
}

/// A rendered record opens with a brace.
proof fn lemma_rtask_starts(t: TaskV)
    ensures
        rtask(t).len() >= 1,
        rtask(t)[0] == '{',
{
    reveal(rtask);
    reveal_strlit("{\"id\":");
    assert(rtask(t)[0] == "{\"id\":"@[0]);
}

#[verifier::rlimit(100)]
proof fn lemma_task_list_rt(ts: Seq<TaskV>, acc: Seq<TaskV>, tail: Seq<char>)
    requires
        tasks_in_range(ts),
    ensures
        p_task_list(rtail(ts) + tail, acc) == Some((acc + ts, tail)),
    decreases ts.len(),
{
    let s = rtail(ts) + tail;
    if ts.len() == 0 {
        assert(s =~= seq![']'] + tail);
        assert(s[0] == ']');
        assert(s.drop_first() =~= tail);
        assert(acc + ts =~= acc);
    } else {
        let t0 = ts[0];
        let rest = ts.drop_first();
        assert(s =~= seq![','] + (rtask(t0) + (rtail(rest) + tail)));
        assert(s[0] == ',');
        assert(s.drop_first() =~= rtask(t0) + (rtail(rest) + tail));
        assert(task_in_range(t0));
        lemma_task_rt(t0, rtail(rest) + tail);
        lemma_rtask_starts(t0);
        assert((rtail(rest) + tail).len() < s.len());
        assert(tasks_in_range(rest)) by {
            assert(forall|i: int| 0 <= i < rest.len() ==> rest[i] == ts[i + 1]);
        }
        lemma_task_list_rt(rest, acc.push(t0), tail);
        assert(acc.push(t0) + rest =~= acc + ts);
    }
}

/// Reloading a rendered collection reproduces exactly the same records, all
/// fields included.
#[verifier::rlimit(100)]
pub proof fn lemma_tasks_round_trip(ts: Seq<TaskV>)
    requires
        tasks_in_range(ts),
    ensures
        parse_tasks_spec(render_tasks_spec(ts)) == Some(ts),
{
    reveal_strlit("[]");
    reveal_strlit("{\"id\":");
    if ts.len() == 0 {
        let s = "[]"@;
        assert(s[0] == '[');
        assert(s.drop_first().len() == 1);
        assert(s.drop_first()[0] == ']');
    } else {
        let s = render_tasks_spec(ts);
        let rest = ts.drop_first();
        assert(s[0] == '[');
        let s1 = s.drop_first();
        assert(s1 =~= rtask(ts[0]) + rtail(rest));
        lemma_rtask_starts(ts[0]);
        assert(s1[0] == '{');
        assert(task_in_range(ts[0]));
        lemma_task_rt(ts[0], rtail(rest));
        assert(tasks_in_range(rest)) by {
            assert(forall|i: int| 0 <= i < rest.len() ==> rest[i] == ts[i + 1]);
        }
        assert(rtail(rest) =~= rtail(rest) + Seq::<char>::empty());
        lemma_task_list_rt(rest, seq![ts[0]], Seq::empty());
        assert(p_task_list(rtail(rest), seq![ts[0]]) == Some(
            (seq![ts[0]] + rest, Seq::<char>::empty()),
        ));
        assert(seq![ts[0]] + rest =~= ts);
    }
}

// ---------------------------------------------------------------------------
// Executable renderer.
proof fn lemma_esc_snoc(a: Seq<char>, c: char)
    ensures
        esc(a.push(c)) == esc(a) + esc_char(c),
    decreases a.len(),
{
    if a.len() == 0 {
        let s = a.push(c);
        assert(s.drop_first() =~= Seq::<char>::empty());
        assert(esc(s.drop_first()) =~= Seq::<char>::empty());
        assert(s[0] == c);
        assert(esc(s) =~= esc_char(c) + esc(s.drop_first()));
        assert(esc(s) =~= esc_char(c));
        assert(esc(a) + esc_char(c) =~= esc_char(c));
    } else {
        assert(a.push(c).drop_first() =~= a.drop_first().push(c));
        lemma_esc_snoc(a.drop_first(), c);
        assert(esc(a.push(c)) =~= esc(a) + esc_char(c));
    }
}

/// Appends a literal.
fn push_lit(out: &mut Vec<char>, lit: &str)
    ensures
        final(out)@ == old(out)@ + lit@,
{
    let cs = str_chars(lit);
    let ghost base = out@;
    let n = cs.len();
    let mut i: usize = 0;
    while i < n
        invariant
            n == cs@.len(),
            cs@ == lit@,
            0 <= i <= n,
            out@ == base + cs@.take(i as int),
        decreases n - i,
    {
        out.push(cs[i]);
        proof {
            assert(base + cs@.take(i + 1) =~= (base + cs@.take(i as int)).push(cs@[i as int]));
        }
        i += 1;
    }
    proof {
        assert(cs@.take(n as int) =~= cs@);
    }
}

/// Appends the escaped body of a string field.
fn push_escaped(out: &mut Vec<char>, s: &String)
    ensures
        final(out)@ == old(out)@ + esc(s@),
{
    let cs = str_chars(s.as_str());
    let ghost base = out@;
    let n = cs.len();
    let mut i: usize = 0;
    proof {
        assert(esc(cs@.take(0)) =~= Seq::<char>::empty());
        assert(out@ =~= base + esc(cs@.take(0)));
    }
    while i < n
        invariant
            n == cs@.len(),
            cs@ == s@,
            0 <= i <= n,
            out@ == base + esc(cs@.take(i as int)),
        decreases n - i,
    {
        let c = cs[i];
        proof {
            assert(cs@.take(i + 1) =~= cs@.take(i as int).push(cs@[i as int]));
            lemma_esc_snoc(cs@.take(i as int), cs@[i as int]);
        }
        if c == '"' {
            out.push('\\');
            out.push('"');
        } else if c == '\\' {
            out.push('\\');
            out.push('\\');
        } else if c >= '\u{0}' && ' ' > c {
            let v = c as u32;
            proof {
                assert(0 <= c as int && (c as int) < 32);
                assert(v as int == c as int);
            }
            out.push('\\');
            out.push('u');
            out.push('0');
            out.push('0');
            let hi = v / 16;
            let lo = v % 16;
            let hc: char = if hi < 10 {
                ((48 + hi) as u8) as char
            } else {
                ((87 + hi) as u8) as char
            };
            let lc: char = if lo < 10 {
                ((48 + lo) as u8) as char
            } else {
                ((87 + lo) as u8) as char
            };
            out.push(hc);
            out.push(lc);
            proof {
                assert(hc == hex_digit(c as int / 16));
                assert(lc == hex_digit(c as int % 16));
                assert(out@ =~= base + esc(cs@.take(i + 1)));
            }
        } else {
            out.push(c);
        }
        proof {
            assert(out@ =~= base + esc(cs@.take(i + 1)));
        }
        i += 1;
    }
    proof {
        assert(cs@.take(n as int) =~= cs@);
    }
}

/// Appends a quoted, escaped string field.
fn push_string(out: &mut Vec<char>, s: &String)
    ensures
        final(out)@ == old(out)@ + rstring(s@),
{
    let ghost base = out@;
    out.push('"');
    push_escaped(out, s);
    out.push('"');
    proof {
        assert(out@ =~= base + rstring(s@));
    }
}

/// Appends the decimal digits of a non-negative value.
fn push_digits(out: &mut Vec<char>, n: u64)
    ensures
        final(out)@ == old(out)@ + rdigits(n as int),
    decreases n,
{
    if n <= 9 {
        let d: char = ((48 + n as u8)) as char;
        out.push(d);
        proof {
            assert(d == dec_digit(n as int));
            assert(old(out)@.push(d) =~= old(out)@ + rdigits(n as int));
        }
    } else {
        let ghost base = out@;
        push_digits(out, n / 10);
        let d: char = ((48 + (n % 10) as u8)) as char;
        out.push(d);
        proof {
            assert(d == dec_digit(n as int % 10));
            assert((base + rdigits(n as int / 10)).push(d) =~= base + rdigits(n as int));
        }
    }
}

/// Appends a signed 64-bit value in decimal.
fn push_i64(out: &mut Vec<char>, v: i64)
    ensures
        final(out)@ == old(out)@ + rint(v as int),
{
    if v < 0 {
        let ghost base = out@;
        out.push('-');
        let mag: u64 = ((-(v + 1)) as u64) + 1;
        proof {
            assert(mag as int == -(v as int));
        }
        push_digits(out, mag);
        proof {
            assert(base.push('-') + rdigits(mag as int) =~= base + rint(v as int));
        }
    } else {
        push_digits(out, v as u64);
    }
}

fn push_opt_i64(out: &mut Vec<char>, v: &Option<i64>)
    ensures
        final(out)@ == old(out)@ + ropt_int(
            match *v {
                Some(t) => Some(t as int),
                None => None,
            },
        ),
{
    match v {
        Some(t) => push_i64(out, *t),
        None => push_lit(out, "null"),
    }
}

fn push_opt_string(out: &mut Vec<char>, v: &Option<String>)
    ensures
        final(out)@ == old(out)@ + ropt_string(
            match *v {
                Some(ref s) => Some(s@),
                None => None,
            },
        ),
{
    match v {
        Some(s) => push_string(out, s),
        None => push_lit(out, "null"),
    }
}

/// Appends one rendered record.
#[verifier::rlimit(100)]
fn push_task(out: &mut Vec<char>, t: &ScheduledTask)
    ensures
        final(out)@ == old(out)@ + rtask(t@),
{
    let ghost base = out@;
    push_lit(out, "{\"id\":");
    push_string(out, &t.id);
    push_lit(out, ",\"userId\":");
    push_i64(out, t.user_id);
    push_lit(out, ",\"lang\":\"");
    push_lit(out, t.lang.code());
    push_lit(out, "\",\"locale\":");
    push_string(out, &t.locale);
    push_lit(out, ",\"timeZone\":");
    push_string(out, &t.time_zone);
    proof {
        assert(t.lang.code_spec() == rlang(t@.lang));
        assert(out@ =~= base + rtask_head(t@));
    }
    push_lit(out, ",\"scheduledTime\":");
    push_i64(out, t.scheduled_time);
    push_lit(out, ",\"createdAt\":");
    push_i64(out, t.created_at);
    push_lit(out, ",\"executedAt\":");
    push_opt_i64(out, &t.executed_at);
    push_lit(out, ",\"status\":\"");
    match t.status {
        TaskStatus::Pending => push_lit(out, "pending"),
        TaskStatus::Executed => push_lit(out, "executed"),
        TaskStatus::Failed => push_lit(out, "failed"),
    }
    push_lit(out, "\",\"error\":");
    push_opt_string(out, &t.error);
    push_lit(out, "}");
    proof {
        reveal(rtask);
        assert(out@ =~= base + rtask(t@));
    }
}

/// Renders the whole collection in its canonical text form.
pub fn render_tasks(tasks: &Vec<ScheduledTask>) -> (r: String)
    ensures
        r@ == render_tasks_spec(task_views(tasks@)),
{
    let n = tasks.len();
    let mut out: Vec<char> = Vec::new();
    let ghost views = task_views(tasks@);
    if n == 0 {
        push_lit(&mut out, "[]");
        proof {
            assert(out@ =~= "[]"@);
        }
        return chars_to_string(&out);
    }
    out.push('[');
    push_task(&mut out, &tasks[0]);
    proof {
        assert(out@ + rtail(views.skip(1)) =~= render_tasks_spec(views)) by {
            assert(out@ =~= seq!['['] + rtask(views[0]));
        }
    }
    let mut i: usize = 1;
    while i < n
        invariant
            n == tasks@.len(),
            1 <= i <= n,
            views == task_views(tasks@),
            out@ + rtail(views.skip(i as int)) == render_tasks_spec(views),
        decreases n - i,
    {
        let ghost pre = out@;
        out.push(',');
        push_task(&mut out, &tasks[i]);
        proof {
            assert(views.skip(i as int)[0] == views[i as int]);
            assert(views.skip(i as int).drop_first() =~= views.skip(i + 1));
            assert(rtail(views.skip(i as int)) =~= seq![','] + rtask(views[i as int]) + rtail(
                views.skip(i + 1),
            ));
            assert(out@ =~= pre + (seq![','] + rtask(views[i as int])));
            assert(out@ + rtail(views.skip(i + 1)) =~= pre + rtail(views.skip(i as int)));
        }
        i += 1;
    }
    out.push(']');
    proof {
        assert(views.skip(n as int) =~= Seq::<TaskV>::empty());
        assert(rtail(views.skip(n as int)) =~= seq![']']);
        assert(out@ =~= render_tasks_spec(views));
    }
    chars_to_string(&out)
}

// ---------------------------------------------------------------------------
// Executable parser.
/// Relies on char::from_u32: a scalar value below the surrogate range
/// becomes the character with that code point.
#[verifier::external_body]
fn char_of_u32(v: u32) -> (r: char)
    requires
        v < 0xD800,
    ensures
        r == (v as char),
{
    char::from_u32(v).unwrap_or(' ')
}

fn px_lit(chars: &Vec<char>, p: usize, lit: &str) -> (r: Option<usize>)
    requires
        p <= chars@.len(),
    ensures
        match r {
            Some(q) => p <= q <= chars@.len() && q - p == lit@.len() && p_lit(
                chars@.skip(p as int),
                lit@,
            ) == Some(chars@.skip(q as int)),
            None => p_lit(chars@.skip(p as int), lit@) is None,
        },
{
    let lcs = str_chars(lit);
    let m = lcs.len();
    let nn = chars.len();
    if nn - p < m {
        return None;
    }
    let mut j: usize = 0;
    while j < m
        invariant
            m == lcs@.len(),
            lcs@ == lit@,
            nn == chars@.len(),
            p + m <= nn,
            0 <= j <= m,
            forall|k: int| 0 <= k < j ==> chars@[p + k] == lcs@[k],
        decreases m - j,
    {
        if chars[p + j] != lcs[j] {
            proof {
                let s = chars@.skip(p as int);
                if s.take(m as int) == lit@ {
                    assert(s.take(m as int)[j as int] == s[j as int]);
                    assert(s[j as int] == chars@[p + j]);
                    assert(false);
                }
            }
            return None;
        }
        j += 1;
    }
    proof {
        let s = chars@.skip(p as int);
        assert(s.take(m as int) =~= lit@);
        assert(s.skip(m as int) =~= chars@.skip(p + m));
    }
    Some(p + m)
}

fn hexv(c: char) -> (r: i32)
    ensures
        r as int == hex_val(c),
{
    if c >= '0' && c <= '9' {
        ((c as u32) - 48) as i32
    } else if c >= 'a' && c <= 'f' {
        ((c as u32) - 87) as i32
    } else {
        -1
    }
}

fn px_string(chars: &Vec<char>, p: usize) -> (r: Option<(String, usize)>)
    requires
        p <= chars@.len(),
    ensures
        match r {
            Some(v) => p < v.1 <= chars@.len() && p_string(chars@.skip(p as int)) == Some(
                (v.0@, chars@.skip(v.1 as int)),
            ),
            None => p_string(chars@.skip(p as int)) is None,
        },
{
    let n = chars.len();
    if p >= n {
        return None;
    }
    if chars[p] != '"' {
        proof {
            assert(chars@.skip(p as int)[0] == chars@[p as int]);
        }
        return None;
    }
    let mut acc: Vec<char> = Vec::new();
    let mut cur = p + 1;
    proof {
        assert(chars@.skip(p as int)[0] == chars@[p as int]);
        assert(chars@.skip(p as int).drop_first() =~= chars@.skip(p + 1));
    }
    while cur < n
        invariant
            n == chars@.len(),
            p < n,
            chars@[p as int] == '"',
            p_string(chars@.skip(p as int)) == p_strchars(chars@.skip(p + 1)),
            p + 1 <= cur <= n,
            match p_strchars(chars@.skip(cur as int)) {
                Some((t, rr)) => p_strchars(chars@.skip(p + 1)) == Some((acc@ + t, rr)),
                None => p_strchars(chars@.skip(p + 1)) is None,
            },
        decreases n - cur,
    {
        let ghost scur = chars@.skip(cur as int);
        proof {
            assert(scur[0] == chars@[cur as int]);
            assert(scur.drop_first() =~= chars@.skip(cur + 1));
        }
        let c = chars[cur];
        if c == '"' {
            proof {
                assert(acc@ + Seq::<char>::empty() =~= acc@);
            }
            return Some((chars_to_string(&acc), cur + 1));
        } else if c == '\\' {
            if n - cur < 2 {
                return None;
            }
            let e = chars[cur + 1];
            proof {
                assert(scur[1] == chars@[cur + 1]);
            }
            if e == '"' || e == '\\' {
                proof {
                    assert(scur.skip(2) =~= chars@.skip(cur + 2));
                    match p_strchars(chars@.skip(cur + 2)) {
                        Some((t, rr)) => {
                            assert(acc@ + (seq![e] + t) =~= acc@.push(e) + t);
                        },
                        None => {},
                    }
                }
                acc.push(e);
                cur += 2;
            } else if e == 'u' {
                if n - cur < 6 {
                    return None;
                }
                let h2 = hexv(chars[cur + 2]);
                let h3 = hexv(chars[cur + 3]);
                let h4 = hexv(chars[cur + 4]);
                let h5 = hexv(chars[cur + 5]);
                proof {
                    assert(scur[2] == chars@[cur + 2]);
                    assert(scur[3] == chars@[cur + 3]);
                    assert(scur[4] == chars@[cur + 4]);
                    assert(scur[5] == chars@[cur + 5]);
                }
                if h2 < 0 || h3 < 0 || h4 < 0 || h5 < 0 {
                    return None;
                }
                let v: u32 = ((((h2 as u32) * 16 + (h3 as u32)) * 16 + (h4 as u32)) * 16 + (
                h5 as u32));
                if v >= 0xD800 {
                    return None;
                }
                let ch = char_of_u32(v);
                proof {
                    assert(scur.skip(6) =~= chars@.skip(cur + 6));
                    match p_strchars(chars@.skip(cur + 6)) {
                        Some((t, rr)) => {
                            assert(acc@ + (seq![ch] + t) =~= acc@.push(ch) + t);
                        },
                        None => {},
                    }
                }
                acc.push(ch);
                cur += 6;
            } else {
                return None;
            }
        } else if c >= '\u{0}' && ' ' > c {
            return None;
        } else {
            proof {
                match p_strchars(chars@.skip(cur + 1)) {
                    Some((t, rr)) => {
                        assert(acc@ + (seq![c] + t) =~= acc@.push(c) + t);
                    },
                    None => {},
                }
            }
            acc.push(c);
            cur += 1;
        }
    }
    proof {
        assert(chars@.skip(cur as int).len() == 0);
    }
    None
}

proof fn lemma_pdl_ge(s: Seq<char>, acc: int)
    requires
        acc >= 0,
    ensures
        p_digits_loop(s, acc).0 >= acc,
    decreases s.len(),
{
    if s.len() > 0 && is_digit(s[0]) {
        lemma_pdl_ge(s.drop_first(), acc * 10 + (s[0] as int - 48));
    }
}

fn px_i64(chars: &Vec<char>, p: usize) -> (r: Option<(i64, usize)>)
    requires
        p <= chars@.len(),
    ensures
        match r {
            Some(v) => p < v.1 <= chars@.len() && p_i64(chars@.skip(p as int)) == Some(
                (v.0 as int, chars@.skip(v.1 as int)),
            ),
            None => p_i64(chars@.skip(p as int)) is None,
        },
{
    let n = chars.len();
    let mut neg = false;
    let mut ds = p;
    if p < n && chars[p] == '-' {
        neg = true;
        ds = p + 1;
    }
    proof {
        if p < n {
            assert(chars@.skip(p as int)[0] == chars@[p as int]);
            assert(chars@.skip(p as int).drop_first() =~= chars@.skip(p + 1));
        }
    }
    if ds >= n {
        return None;
    }
    let first = chars[ds];
    proof {
        assert(chars@.skip(ds as int)[0] == chars@[ds as int]);
    }
    if !(first >= '0' && first <= '9') {
        return None;
    }
    let mut acc: u64 = 0;
    let mut cur = ds;
    while cur < n && chars[cur] >= '0' && chars[cur] <= '9'
        invariant
            n == chars@.len(),
            p <= ds <= cur <= n,
            ds < n,
            neg ==> p < n && chars@[p as int] == '-' && ds == p + 1,
            !neg ==> ds == p,
            is_digit(chars@[ds as int]),
            acc <= 9223372036854775808u64,
            p_digits_loop(chars@.skip(ds as int), 0) == p_digits_loop(
                chars@.skip(cur as int),
                acc as int,
            ),
        decreases n - cur,
    {
        let ghost scur = chars@.skip(cur as int);
        proof {
            assert(scur[0] == chars@[cur as int]);
            assert(scur.drop_first() =~= chars@.skip(cur + 1));
        }
        let c = chars[cur];
        let d = ((c as u32) - 48) as u64;
        proof {
            assert(d as int == chars@[cur as int] as int - 48);
        }
        let stepped = match acc.checked_mul(10) {
            Some(a) => a.checked_add(d),
            None => None,
        };
        let next = match stepped {
            Some(v) => v,
            None => {
                proof {
                    lemma_pdl_ge(chars@.skip(cur + 1), acc as int * 10 + d as int);
                    let full = p_digits_loop(chars@.skip(ds as int), 0).0;
                    assert(full >= acc as int * 10 + d as int);
                    assert(full > i64::MAX as int && -full < i64::MIN as int);
                    if p < n {
                        assert(chars@.skip(p as int)[0] == chars@[p as int]);
                        assert(chars@.skip(p as int).drop_first() =~= chars@.skip(p + 1));
                    }
                    assert(chars@.skip(ds as int)[0] == chars@[ds as int]);
                }
                return None;
            },
        };
        if next > 9223372036854775808u64 {
            proof {
                lemma_pdl_ge(chars@.skip(cur + 1), next as int);
                let full = p_digits_loop(chars@.skip(ds as int), 0).0;
                assert(full >= next as int);
                assert(full > i64::MAX as int && -full < i64::MIN as int);
                if p < n {
                    assert(chars@.skip(p as int)[0] == chars@[p as int]);
                    assert(chars@.skip(p as int).drop_first() =~= chars@.skip(p + 1));
                }
                assert(chars@.skip(ds as int)[0] == chars@[ds as int]);
            }
            return None;
        }
        acc = next;
        cur += 1;
    }
    proof {
        let scur = chars@.skip(cur as int);
        if cur < n {
            assert(scur[0] == chars@[cur as int]);
        }
        assert(p_digits_loop(scur, acc as int) == (acc as int, scur));
    }
    if neg {
        let v: i64 = if acc == 9223372036854775808u64 {
            i64::MIN
        } else {
            -(acc as i64)
        };
        proof {
            assert(v as int == -(acc as int));
        }
        Some((v, cur))
    } else {
        if acc > 9223372036854775807u64 {
            return None;
        }
        Some((acc as i64, cur))
    }
}

fn px_opt_i64(chars: &Vec<char>, p: usize) -> (r: Option<(Option<i64>, usize)>)
    requires
        p <= chars@.len(),
    ensures
        match r {
            Some(v) => p < v.1 <= chars@.len() && p_opt_i64(chars@.skip(p as int)) == Some(
                (
                    match v.0 {
                        Some(t) => Some(t as int),
                        None => None,
                    },
                    chars@.skip(v.1 as int),
                ),
            ),
            None => p_opt_i64(chars@.skip(p as int)) is None,
        },
{
    match px_lit(chars, p, "null") {
        Some(q) => {
            proof {
                reveal_strlit("null");
            }
            Some((None, q))
        },
        None => match px_i64(chars, p) {
            Some((v, q)) => Some((Some(v), q)),
            None => None,
        },
    }
}

fn px_opt_string(chars: &Vec<char>, p: usize) -> (r: Option<(Option<String>, usize)>)
    requires
        p <= chars@.len(),
    ensures
        match r {
            Some(v) => p < v.1 <= chars@.len() && p_opt_string(chars@.skip(p as int)) == Some(
                (
                    match v.0 {
                        Some(ref s) => Some(s@),
                        None => None,
                    },
                    chars@.skip(v.1 as int),
                ),
            ),
            None => p_opt_string(chars@.skip(p as int)) is None,
        },
{
    match px_lit(chars, p, "null") {
        Some(q) => {
            proof {
                reveal_strlit("null");
            }
            Some((None, q))
        },
        None => match px_string(chars, p) {
            Some((v, q)) => Some((Some(v), q)),
            None => None,
        },
    }
}

fn px_lang(chars: &Vec<char>, p: usize) -> (r: Option<(Lang, usize)>)
    requires
        p <= chars@.len(),
    ensures
        match r {
            Some(v) => p < v.1 <= chars@.len() && p_lang(chars@.skip(p as int)) == Some(
                (v.0, chars@.skip(v.1 as int)),
            ),
            None => p_lang(chars@.skip(p as int)) is None,
        },
{
    proof {
        reveal_strlit("en");
        reveal_strlit("es");
    }
    match px_lit(chars, p, "en") {
        Some(q) => Some((Lang::En, q)),
        None => match px_lit(chars, p, "es") {
            Some(q) => Some((Lang::Es, q)),
            None => None,
        },
    }
}

fn px_status(chars: &Vec<char>, p: usize) -> (r: Option<(TaskStatus, usize)>)
    requires
        p <= chars@.len(),
    ensures
        match r {
            Some(v) => p < v.1 <= chars@.len() && p_status(chars@.skip(p as int)) == Some(
                (v.0, chars@.skip(v.1 as int)),
            ),
            None => p_status(chars@.skip(p as int)) is None,
        },
{
    proof {
        reveal_strlit("pending");
        reveal_strlit("executed");
        reveal_strlit("failed");
    }
    match px_lit(chars, p, "pending") {
        Some(q) => Some((TaskStatus::Pending, q)),
        None => match px_lit(chars, p, "executed") {
            Some(q) => Some((TaskStatus::Executed, q)),
            None => match px_lit(chars, p, "failed") {
                Some(q) => Some((TaskStatus::Failed, q)),
                None => None,
            },
        },
    }
}

/// One record, fields in their fixed order.
#[verifier::rlimit(100)]
fn px_task(chars: &Vec<char>, p: usize) -> (r: Option<(ScheduledTask, usize)>)
    requires
        p <= chars@.len(),
    ensures
        match r {
            Some(v) => p < v.1 <= chars@.len() && p_task(chars@.skip(p as int)) == Some(
                (v.0@, chars@.skip(v.1 as int)),
            ),
            None => p_task(chars@.skip(p as int)) is None,
        },
{
    let p1 = match px_lit(chars, p, "{\"id\":") {
        Some(q) => q,
        None => {
            return None;
        },
    };
    let (id, p2) = match px_string(chars, p1) {
        Some(v) => v,
        None => {
            return None;
        },
    };
    let p3 = match px_lit(chars, p2, ",\"userId\":") {
        Some(q) => q,
        None => {
            return None;
        },
    };
    let (user_id, p4) = match px_i64(chars, p3) {
        Some(v) => v,
        None => {
            return None;
        },
    };
    let p5 = match px_lit(chars, p4, ",\"lang\":\"") {
        Some(q) => q,
        None => {
            return None;
        },
    };
    let (lang, p6) = match px_lang(chars, p5) {
        Some(v) => v,
        None => {
            return None;
        },
    };
    let p7 = match px_lit(chars, p6, "\",\"locale\":") {
        Some(q) => q,
        None => {
            return None;
        },
    };
    let (locale, p8) = match px_string(chars, p7) {
        Some(v) => v,
        None => {
            return None;
        },
    };
    let p9 = match px_lit(chars, p8, ",\"timeZone\":") {
        Some(q) => q,
        None => {
            return None;
        },
    };
    let (time_zone, p10) = match px_string(chars, p9) {
        Some(v) => v,
        None => {
            return None;
        },
    };
    let p11 = match px_lit(chars, p10, ",\"scheduledTime\":") {
        Some(q) => q,
        None => {
            return None;
        },
    };
    let (scheduled_time, p12) = match px_i64(chars, p11) {
        Some(v) => v,
        None => {
            return None;
        },
    };
    let p13 = match px_lit(chars, p12, ",\"createdAt\":") {
        Some(q) => q,
        None => {
            return None;
        },
    };
    let (created_at, p14) = match px_i64(chars, p13) {
        Some(v) => v,
        None => {
            return None;
        },
    };
    let p15 = match px_lit(chars, p14, ",\"executedAt\":") {
        Some(q) => q,
        None => {
            return None;
        },
    };
    let (executed_at, p16) = match px_opt_i64(chars, p15) {
        Some(v) => v,
        None => {
            return None;
        },
    };
    let p17 = match px_lit(chars, p16, ",\"status\":\"") {
        Some(q) => q,
        None => {
            return None;
        },
    };
    let (status, p18) = match px_status(chars, p17) {
        Some(v) => v,
        None => {
            return None;
        },
    };
    let p19 = match px_lit(chars, p18, "\",\"error\":") {
        Some(q) => q,
        None => {
            return None;
        },
    };
    let (error, p20) = match px_opt_string(chars, p19) {
        Some(v) => v,
        None => {
            return None;
        },
    };
    let p21 = match px_lit(chars, p20, "}") {
        Some(q) => q,
        None => {
            return None;
        },
    };
    let task = ScheduledTask {
        id,
        user_id,
        lang,
        locale,
        time_zone,
        scheduled_time,
        created_at,
        executed_at,
        status,
        error,
    };
    proof {
        match p_task(chars@.skip(p as int)) {
            Some((tv, rr)) => {
                assert(task@ =~= tv);
            },
            None => {
                assert(false);
            },
        }
    }
    Some((task, p21))
}

/// Parses the whole rendered file back into its records; anything but the
/// canonical form is rejected.
pub fn parse_tasks(input: &str) -> (r: Option<Vec<ScheduledTask>>)
    ensures
        match r {
            Some(v) => parse_tasks_spec(input@) == Some(task_views(v@)),
            None => parse_tasks_spec(input@) is None,
        },
{
    let chars = str_chars(input);
    let n = chars.len();
    if n == 0 || chars[0] != '[' {
        return None;
    }
    proof {
        assert(chars@.drop_first() =~= chars@.skip(1));
        if n >= 2 {
            assert(chars@.skip(1)[0] == chars@[1]);
        }
    }
    if n >= 2 && chars[1] == ']' {
        if n == 2 {
            let out: Vec<ScheduledTask> = Vec::new();
            proof {
                assert(task_views(out@) =~= Seq::<TaskV>::empty());
            }
            return Some(out);
        }
        return None;
    }
    if n == 1 {
        return None;
    }
    let (first, mut cur) = match px_task(&chars, 1) {
        Some(v) => v,
        None => {
            return None;
        },
    };
    let mut out: Vec<ScheduledTask> = Vec::new();
    out.push(first);
    proof {
        assert(task_views(out@) =~= seq![first@]);
    }
    while cur < n
        invariant
            n == chars@.len(),
            chars@ == input@,
            1 <= cur <= n,
            ({
                let whole = parse_tasks_spec(chars@);
                match p_task_list(chars@.skip(cur as int), task_views(out@)) {
                    Some((ts, rr)) => (rr.len() == 0 ==> whole == Some(ts)) && (rr.len() > 0
                        ==> whole is None),
                    None => whole is None,
                }
            }),
        decreases n - cur,
    {
        let ghost scur = chars@.skip(cur as int);
        proof {
            assert(scur[0] == chars@[cur as int]);
            assert(scur.drop_first() =~= chars@.skip(cur + 1));
        }
        let c = chars[cur];
        if c == ']' {
            if cur + 1 == n {
                proof {
                    assert(chars@.skip(cur + 1).len() == 0);
                }
                return Some(out);
            }
            proof {
                assert(chars@.skip(cur + 1).len() > 0);
            }
            return None;
        } else if c == ',' {
            let (t, q) = match px_task(&chars, cur + 1) {
                Some(v) => v,
                None => {
                    return None;
                },
            };
            proof {
                assert(q < n || q == n);
                assert(chars@.skip(q as int).len() < scur.len());
                assert(task_views(out@.push(t)) =~= task_views(out@).push(t@));
            }
            out.push(t);
            cur = q;
        } else {
            return None;
        }
    }
    proof {
        assert(chars@.skip(cur as int).len() == 0);
    }
    None
}

} // verus!
