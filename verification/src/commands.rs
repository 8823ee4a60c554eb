//! Chat-command text helpers: the command word, its argument, and the zone a
//! session schedules in.

use vstd::prelude::*;
use crate::clock::{is_space_char, trim_spec};
use vstd::string::StringExecFns;
use crate::token::{chars_to_string, str_chars};
use crate::types::UserData;

verus! {

/// The zone used when a session names none.
pub open spec fn default_time_zone() -> Seq<char> {
    "Europe/Madrid"@
}

/// First index at or after `from` whose character is not whitespace, or the
/// length.
pub open spec fn find_non_space(s: Seq<char>, from: int) -> int
    decreases s.len() - from,
{
    if from < 0 || from >= s.len() {
        s.len() as int
    } else if !is_space_char(s[from]) {
        from
    } else {
        find_non_space(s, from + 1)
    }
}

/// First index at or after `from` whose character is whitespace, or the
/// length.
pub open spec fn find_space(s: Seq<char>, from: int) -> int
    decreases s.len() - from,
{
    if from < 0 || from >= s.len() {
        s.len() as int
    } else if is_space_char(s[from]) {
        from
    } else {
        find_space(s, from + 1)
    }
}

/// The first whitespace-separated word, empty when there is none.
pub open spec fn first_token_spec(s: Seq<char>) -> Seq<char> {
    let a = find_non_space(s, 0);
    let b = find_space(s, a);
    s.subrange(a, b)
}

/// Everything after the first whitespace, trimmed; none when the text has no
/// whitespace at all.
pub open spec fn command_arg_spec(s: Seq<char>) -> Option<Seq<char>> {
    let i = find_space(s, 0);
    if i == s.len() {
        None
    } else {
        Some(trim_spec(s.subrange(i, s.len() as int)))
    }
}

fn exec_find_non_space(chars: &Vec<char>, from: usize) -> (r: usize)
    ensures
        r as int == find_non_space(chars@, from as int),
        r <= chars@.len(),
        from <= chars@.len() ==> from <= r,
{
    let n = chars.len();
    let mut i = from;
    while i < n
        invariant
            n == chars@.len(),
            i >= from,
            find_non_space(chars@, from as int) == find_non_space(chars@, i as int),
        decreases n - i,
    {
        if !crate::clock::is_space(chars[i]) {
            return i;
        }
        i += 1;
    }
    n
}

fn exec_find_space(chars: &Vec<char>, from: usize) -> (r: usize)
    ensures
        r as int == find_space(chars@, from as int),
        r <= chars@.len(),
        from <= chars@.len() ==> from <= r,
{
    let n = chars.len();
    let mut i = from;
    while i < n
        invariant
            n == chars@.len(),
            i >= from,
            find_space(chars@, from as int) == find_space(chars@, i as int),
        decreases n - i,
    {
        if crate::clock::is_space(chars[i]) {
            return i;
        }
        i += 1;
    }
    n
}

/// The first whitespace-separated word of a message.
pub fn first_token(input: &str) -> (r: String)
    ensures
        r@ == first_token_spec(input@),
{
    let chars = str_chars(input);
    let a = exec_find_non_space(&chars, 0);
    let b = exec_find_space(&chars, a);
    let part = crate::token::copy_range(&chars, a, b);
    chars_to_string(&part)
}

/// The argument after the command word, trimmed; none when the message holds
/// a single word.
pub fn command_arg(input: &str) -> (r: Option<String>)
    ensures
        match r {
            Some(s) => command_arg_spec(input@) == Some(s@),
            None => command_arg_spec(input@) is None,
        },
{
    let chars = str_chars(input);
    let n = chars.len();
    let i = exec_find_space(&chars, 0);
    if i == n {
        return None;
    }
    let rest = crate::token::copy_range(&chars, i, n);
    let (lo, hi) = crate::clock::trim_bounds(&rest);
    let part = crate::token::copy_range(&rest, lo, hi);
    Some(chars_to_string(&part))
}

/// The zone a session schedules in: its own zone when it names a non-blank
/// one, the default otherwise.
pub fn user_tz(data: &UserData) -> (r: String)
    ensures
        r@ == match data.time_zone {
            Some(ref t) => if trim_spec(t@).len() > 0 {
                t@
            } else {
                default_time_zone()
            },
            None => default_time_zone(),
        },
{
    match &data.time_zone {
        Some(t) => {
            let chars = str_chars(t.as_str());
            let (lo, hi) = crate::clock::trim_bounds(&chars);
            if hi > lo {
                t.clone()
            } else {
                String::from_str("Europe/Madrid")
            }
        },
        None => String::from_str("Europe/Madrid"),
    }
}

} // verus!
