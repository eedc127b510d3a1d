//! A log of what takes long.
use vstd::prelude::*;
use vstd::string::*;

use crate::number;
use crate::number::parse_unsigned_text;
use crate::number::push_decimal;
use crate::session;
use crate::session::is_argument;
use crate::text;
use crate::text::ascii_lower_of;
use crate::text::chars_of;
use crate::text::same_chars;
use crate::text::same_text;

verus! {

/// From how many milliseconds on something takes long, unless it is set otherwise.
pub const SLOW_MS: u64 = 8;

/// A text with its ASCII letters in lowercase.
pub open spec fn ascii_lowercase(s: Seq<char>) -> Seq<char> {
    s.map_values(|c: char| text::ascii_lower(c))
}

/// Whether a setting switches the log on: anything but zero and the word for false.
pub open spec fn switches_on(value: Seq<char>) -> bool {
    value != "0"@ && ascii_lowercase(value) != "false"@
}

fn is_switched_on(value: &str) -> (r: bool)
    ensures
        r == switches_on(value@),
{
    let chars = chars_of(value);
    let mut lower: Vec<char> = Vec::new();
    let mut i: usize = 0;
    while i < chars.len()
        invariant
            i <= chars@.len(),
            lower@ == ascii_lowercase(chars@.take(i as int)),
        decreases chars.len() - i,
    {
        lower.push(ascii_lower_of(chars[i]));
        proof {
            assert(chars@.take(i + 1) =~= chars@.take(i as int).push(chars@[i as int]));
            assert(lower@ =~= ascii_lowercase(chars@.take(i + 1)));
        }
        i += 1;
    }
    proof {
        assert(chars@.take(i as int) =~= chars@);
    }
    !same_text(value, "0") && !same_chars(&lower, &chars_of("false"))
}

/// Whether a log is written: if an argument or the environment says so.
pub fn is_trace_enabled(args: &Vec<String>, setting: Option<String>) -> (r: bool)
    ensures
        r == (session::has_argument(args@, "--trace-responsive"@) || (setting matches Some(value)
            && switches_on(value@))),
{
    is_argument(args, "--trace-responsive") || match setting {
        Some(value) => is_switched_on(value.as_str()),
        None => false,
    }
}

/// From how many milliseconds on something takes long: a number in the environment, if
/// there is one.
pub open spec fn threshold_of(setting: Option<Seq<char>>) -> int {
    match setting {
        Some(value) => match number::parse_unsigned(value, u64::MAX as int) {
            Some(n) => n,
            None => SLOW_MS as int,
        },
        None => SLOW_MS as int,
    }
}

/// What a setting holds.
pub open spec fn setting_view(setting: Option<String>) -> Option<Seq<char>> {
    match setting {
        Some(value) => Some(value@),
        None => None,
    }
}

/// From how many milliseconds on something takes long.
pub fn slow_threshold(setting: Option<String>) -> (r: u64)
    ensures
        r == threshold_of(setting_view(setting)),
{
    match setting {
        Some(value) => match parse_unsigned_text(&chars_of(value.as_str()), u64::MAX) {
            Some(n) => n,
            None => SLOW_MS,
        },
        None => SLOW_MS,
    }
}

/// A line of the log: the time, the event and some detail.
pub open spec fn log_line_of(time_ms: nat, event: Seq<char>, detail: Seq<char>) -> Seq<char> {
    number::decimal(time_ms) + " event="@ + event + " "@ + detail + "\n"@
}

/// A line of the log.
pub fn log_line(time_ms: u128, event: &str, detail: &str) -> (r: String)
    ensures
        r@ == log_line_of(time_ms as nat, event@, detail@),
{
    let mut r = String::new();
    push_decimal(&mut r, time_ms);
    r.append(" event=");
    r.append(event);
    r.append(" ");
    r.append(detail);
    r.append("\n");
    proof {
        assert(r@ =~= log_line_of(time_ms as nat, event@, detail@));
    }
    r
}

/// The detail of something that took so many nanoseconds, if it took long.
pub fn duration_detail(duration: u64, threshold_ms: u64, detail: &str) -> (r: Option<String>)
    ensures
        match r {
            Some(line) => duration >= threshold_ms * 1_000_000 && line@ == "duration_us="@
                + number::decimal((duration / 1000) as nat) + " "@ + detail@,
            None => duration < threshold_ms * 1_000_000,
        },
        r is Some <==> duration / 1_000_000 >= threshold_ms,
{
    if (duration as u128) < threshold_ms as u128 * 1_000_000 {
        return None;
    }
    let mut r = String::new();
    r.append("duration_us=");
    push_decimal(&mut r, (duration / 1000) as u128);
    r.append(" ");
    r.append(detail);
    proof {
        assert(r@ =~= "duration_us="@ + number::decimal((duration / 1000) as nat) + " "@
            + detail@);
    }
    Some(r)
}

/// The word for false switches the log off in any case, and so does zero. Every other
/// setting switches it on.
pub proof fn lemma_switch(value: Seq<char>, word: Seq<char>)
    requires
        word.len() == value.len(),
        forall|i: int|
            0 <= i < value.len() ==> text::ascii_lower(#[trigger] value[i]) == text::ascii_lower(
                word[i],
            ),
    ensures
        word == "false"@ ==> !switches_on(value),
        value == "0"@ ==> !switches_on(value),
        value.len() != 5 && value != "0"@ ==> switches_on(value),
{
    reveal_strlit("false");
    reveal_strlit("0");
    assert(ascii_lowercase(value).len() == value.len());
    if word == "false"@ {
        assert(ascii_lowercase(value) =~= "false"@) by {
            assert forall|i: int| 0 <= i < 5 implies ascii_lowercase(value)[i] == "false"@[i] by {
                assert(text::ascii_lower(value[i]) == text::ascii_lower(word[i]));
            }
        }
    }
}

/// A number that is set is taken, and anything else is as if nothing were set.
pub proof fn lemma_threshold(n: u64, value: Seq<char>)
    ensures
        threshold_of(Some(number::decimal(n as nat))) == n,
        number::parse_unsigned(value, u64::MAX as int) is None ==> threshold_of(Some(value))
            == threshold_of(None),
        threshold_of(None) == 8,
{
    number::lemma_decimal_round_trip(n as nat, u64::MAX as int);
}

/// A line of the log is one line, if the event and the detail are: it ends where it
/// breaks, and nowhere else.
pub proof fn lemma_log_line_is_one_line(time_ms: nat, event: Seq<char>, detail: Seq<char>)
    requires
        !event.contains('\n'),
        !detail.contains('\n'),
    ensures
        log_line_of(time_ms, event, detail).last() == '\n',
        forall|i: int|
            0 <= i < log_line_of(time_ms, event, detail).len() - 1 ==> #[trigger] log_line_of(
                time_ms,
                event,
                detail,
            )[i] != '\n',
{
    reveal_strlit(" event=");
    reveal_strlit(" ");
    reveal_strlit("\n");
    number::lemma_decimal_digits(time_ms);
    let d = number::decimal(time_ms);
    let line = log_line_of(time_ms, event, detail);
    assert forall|i: int| 0 <= i < line.len() - 1 implies #[trigger] line[i] != '\n' by {
        if i < d.len() {
            assert(line[i] == d[i]);
            assert(number::is_digit(d[i]));
        } else if i < d.len() + 7 {
            assert(line[i] == " event="@[i - d.len()]);
        } else if i < d.len() + 7 + event.len() {
            assert(line[i] == event[i - d.len() - 7]);
        } else if i > d.len() + 7 + event.len() {
            assert(line[i] == detail[i - d.len() - 8 - event.len()]);
        }
    }
}

} // verus!
