//! Points in time as RFC 3339 writes them.
use vstd::prelude::*;
use vstd::string::*;
use vstd::utf8::*;

use crate::clock::Timestamp;
use crate::encoding;
use crate::encoding::char_at_offset;
use crate::number;
use crate::number::parse_signed_text;
use crate::number::parse_unsigned_text;
use crate::text;
use crate::text::chars_of;
use crate::text::string_of;
use crate::text::sub_chars;
use crate::text::trimmed;

verus! {

// ---------------------------------------------------------------------------
// The calendar
// ---------------------------------------------------------------------------

/// The day of a date in the Gregorian calendar, counted from the start of 1970.
/// The year is taken to start in March, so that a leap day ends it; 400 years
/// make up a period.
pub open spec fn civil_days(year: int, month: int, day: int) -> int {
    let y = if month <= 2 {
        year - 1
    } else {
        year
    };
    let era = y / 400;
    let yoe = y % 400;
    let m = if month > 2 {
        month - 3
    } else {
        month + 9
    };
    let doy = (153 * m + 2) / 5 + day - 1;
    let doe = yoe * 365 + yoe / 4 - yoe / 100 + doy;
    era * 146_097 + doe - 719_468
}

/// Whether a year has a leap day.
pub open spec fn is_leap(year: int) -> bool {
    year % 4 == 0 && (year % 100 != 0 || year % 400 == 0)
}

/// How many days a month has.
pub open spec fn month_days(year: int, month: int) -> int {
    if month == 2 {
        if is_leap(year) {
            29
        } else {
            28
        }
    } else if month == 4 || month == 6 || month == 9 || month == 11 {
        30
    } else {
        31
    }
}

/// The days are those of the calendar: they are counted from the start of 1970,
/// each date is one behind the one before it, a month follows on the last day of
/// the one before it, and a year on the last day of December.
pub proof fn lemma_civil_days(year: int, month: int, day: int)
    requires
        1 <= month <= 12,
    ensures
        civil_days(1970, 1, 1) == 0,
        civil_days(year, month, day + 1) == civil_days(year, month, day) + 1,
        month < 12 ==> civil_days(year, month + 1, 1) == civil_days(year, month, 1) + month_days(
            year,
            month,
        ),
        civil_days(year + 1, 1, 1) == civil_days(year, 12, 1) + 31,
{
    if month == 2 {
        lemma_march(year);
    }
}

/// How quotients by the spacing of leap years grow.
proof fn lemma_quotient_step(n: int)
    ensures
        n / 4 - (n - 1) / 4 == if n % 4 == 0 {
            1int
        } else {
            0
        },
        n / 100 - (n - 1) / 100 == if n % 100 == 0 {
            1int
        } else {
            0
        },
{
}

/// What a year leaves within its period says whether it is a leap year.
proof fn lemma_period_remainder(year: int)
    ensures
        year % 4 == (year % 400) % 4,
        year % 100 == (year % 400) % 100,
{
}

/// The step from February to March depends on the leap day.
proof fn lemma_march(year: int)
    ensures
        civil_days(year, 3, 1) == civil_days(year, 2, 1) + month_days(year, 2),
{
    let yoe = year % 400;
    lemma_quotient_step(yoe);
    lemma_period_remainder(year);
    if yoe == 0 {
        assert((year - 1) / 400 == year / 400 - 1);
        assert((year - 1) % 400 == 399);
    } else {
        assert((year - 1) / 400 == year / 400);
        assert((year - 1) % 400 == yoe - 1);
    }
}

/// The day of a date, counted from the start of 1970.
pub fn days_from_civil(year: i32, month: u32, day: u32) -> (r: i64)
    ensures
        r == civil_days(year as int, month as int, day as int),
{
    let y: i64 = if month <= 2 {
        year as i64 - 1
    } else {
        year as i64
    };
    // Division rounds towards zero.
    let era: i64 = if y >= 0 {
        y / 400
    } else {
        -((399 - y) / 400)
    };
    let yoe: i64 = y - era * 400;
    let m: i64 = if month > 2 {
        month as i64 - 3
    } else {
        month as i64 + 9
    };
    let doy: i64 = (153 * m + 2) / 5 + day as i64 - 1;
    let doe: i64 = yoe * 365 + yoe / 4 - yoe / 100 + doy;
    proof {
        assert(era == y as int / 400);
        assert(yoe == y as int % 400);
    }
    era * 146_097 + doe - 719_468
}

// ---------------------------------------------------------------------------
// The text
// ---------------------------------------------------------------------------

/// The number from 0 up that stands between two byte offsets.
pub open spec fn count_at(v: Seq<char>, from: int, to: int) -> Option<int> {
    match encoding::byte_slice(v, from, to) {
        Some(s) => number::parse_unsigned(s, u32::MAX as int),
        None => None,
    }
}

/// Whether a character stands alone between two byte offsets.
pub open spec fn mark_at(v: Seq<char>, at: int, c: char) -> bool {
    encoding::byte_slice(v, at, at + 1) == Some(seq![c])
}

/// A date and a time of day.
pub struct Civil {
    pub year: i32,
    pub month: u32,
    pub day: u32,
    pub hour: u32,
    pub minute: u32,
    pub second: u32,
}

/// The date and time of day in front: `YYYY-MM-DDThh:mm:ss`.
#[verifier::opaque]
pub open spec fn civil_at(v: Seq<char>) -> Option<Civil> {
    match (
        encoding::byte_slice(v, 0, 4),
        count_at(v, 5, 7),
        count_at(v, 8, 10),
        count_at(v, 11, 13),
        count_at(v, 14, 16),
        count_at(v, 17, 19),
    ) {
        (Some(y), Some(month), Some(day), Some(hour), Some(minute), Some(second)) => {
            match number::parse_signed(y, i32::MIN as int, i32::MAX as int) {
                Some(year) => if mark_at(v, 4, '-') && mark_at(v, 7, '-') && mark_at(v, 10, 'T')
                    && mark_at(v, 13, ':') && mark_at(v, 16, ':') && 1 <= month <= 12 && 1 <= day
                    <= 31 && hour <= 23 && minute <= 59 && second <= 60 {
                    Some(
                        Civil {
                            year: year as i32,
                            month: month as u32,
                            day: day as u32,
                            hour: hour as u32,
                            minute: minute as u32,
                            second: second as u32,
                        },
                    )
                } else {
                    None
                },
                None => None,
            }
        },
        _ => None,
    }
}

/// The first place at or after `k` that is not a digit.
pub open spec fn after_digits(v: Seq<char>, k: int) -> int
    decreases v.len() - k,
{
    if 0 <= k < v.len() && number::is_digit(v[k]) {
        after_digits(v, k + 1)
    } else {
        k
    }
}

/// Where the time zone starts: behind the seconds and a fraction, if there is one.
pub open spec fn zone_start(v: Seq<char>) -> int {
    let k = encoding::char_index(v, 19);
    if k < v.len() && v[k] == '.' {
        after_digits(v, k + 1)
    } else {
        k
    }
}

/// The number, with or without a sign, that stands between two byte offsets.
pub open spec fn signed_at(v: Seq<char>, from: int, to: int) -> Option<int> {
    match encoding::byte_slice(v, from, to) {
        Some(s) => number::parse_signed(s, i64::MIN as int, i64::MAX as int),
        None => None,
    }
}

/// The seconds that a time zone is ahead: `Z`, or a sign, hours and minutes with
/// or without a colon between them.
#[verifier::opaque]
pub open spec fn zone_offset(tz: Seq<char>) -> Option<int> {
    if tz == seq!['Z'] || tz == seq!['z'] {
        Some(0)
    } else if tz.len() == 0 || (tz[0] != '+' && tz[0] != '-') {
        None
    } else {
        let k = encoding::char_index(tz, 3);
        let minutes = if k < tz.len() && tz[k] == ':' {
            signed_at(tz, 4, 6)
        } else {
            signed_at(tz, 3, 5)
        };
        match (signed_at(tz, 1, 3), minutes) {
            (Some(h), Some(m)) => if h > 23 || m > 59 {
                None
            } else if tz[0] == '+' {
                Some(h * 3600 + m * 60)
            } else {
                Some(-(h * 3600 + m * 60))
            },
            _ => None,
        }
    }
}

/// The seconds from the Unix epoch to a date and time of day.
pub open spec fn civil_secs(c: Civil) -> int {
    civil_days(c.year as int, c.month as int, c.day as int) * 86_400 + c.hour * 3600 + c.minute * 60
        + c.second
}

/// The seconds from the Unix epoch to a point in time as RFC 3339 writes it.
pub open spec fn rfc3339_secs(value: Seq<char>) -> Option<int> {
    let v = text::trim(value);
    if encoding::byte_len(v) < 20 {
        None
    } else {
        match civil_at(v) {
            Some(c) => match zone_offset(v.skip(zone_start(v))) {
                Some(offset) => Some(civil_secs(c) - offset),
                None => None,
            },
            None => None,
        }
    }
}

fn slice_at(v: &[char], from: usize, to: usize) -> (r: Option<Vec<char>>)
    requires
        encoding::byte_len(v@) <= usize::MAX,
        from <= to,
    ensures
        match r {
            Some(s) => encoding::byte_slice(v@, from as int, to as int) == Some(s@),
            None => encoding::byte_slice(v@, from as int, to as int) is None,
        },
{
    match (char_at_offset(v, from), char_at_offset(v, to)) {
        (Some(a), Some(b)) => {
            proof {
                if b < a {
                    encoding::lemma_byte_offset_monotone(v@, b as int, a as int);
                }
            }
            Some(sub_chars(v, a, b))
        },
        _ => None,
    }
}

fn read_count(v: &[char], from: usize, to: usize) -> (r: Option<u32>)
    requires
        encoding::byte_len(v@) <= usize::MAX,
        from <= to,
    ensures
        match r {
            Some(n) => count_at(v@, from as int, to as int) == Some(n as int),
            None => count_at(v@, from as int, to as int) is None,
        },
{
    match slice_at(v, from, to) {
        Some(s) => match parse_unsigned_text(s.as_slice(), u32::MAX as u64) {
            Some(n) => Some(n as u32),
            None => None,
        },
        None => None,
    }
}

fn read_signed(v: &[char], from: usize, to: usize) -> (r: Option<i64>)
    requires
        encoding::byte_len(v@) <= usize::MAX,
        from <= to,
    ensures
        match r {
            Some(n) => signed_at(v@, from as int, to as int) == Some(n as int),
            None => signed_at(v@, from as int, to as int) is None,
        },
{
    match slice_at(v, from, to) {
        Some(s) => parse_signed_text(s.as_slice(), i64::MAX),
        None => None,
    }
}

fn has_mark(v: &[char], at: usize, c: char) -> (r: bool)
    requires
        encoding::byte_len(v@) <= usize::MAX,
        at < 100,
    ensures
        r == mark_at(v@, at as int, c),
{
    match slice_at(v, at, at + 1) {
        Some(s) => {
            if s.len() == 1 && s[0] == c {
                proof {
                    assert(s@ =~= seq![c]);
                }
                true
            } else {
                false
            }
        },
        None => false,
    }
}

fn read_civil(v: &[char]) -> (r: Option<Civil>)
    requires
        encoding::byte_len(v@) <= usize::MAX,
    ensures
        r == civil_at(v@),
        r matches Some(c) ==> c.hour <= 23 && c.minute <= 59 && c.second <= 60 && 1 <= c.month <= 12
            && 1 <= c.day <= 31 && encoding::is_boundary(v@, 19),
{
    proof {
        reveal(civil_at);
    }
    let year = match slice_at(v, 0, 4) {
        Some(s) => match parse_signed_text(s.as_slice(), i32::MAX as i64) {
            Some(n) => n as i32,
            None => {
                return None;
            },
        },
        None => {
            return None;
        },
    };
    match (
        read_count(v, 5, 7),
        read_count(v, 8, 10),
        read_count(v, 11, 13),
        read_count(v, 14, 16),
        read_count(v, 17, 19),
    ) {
        (Some(month), Some(day), Some(hour), Some(minute), Some(second)) => {
            if has_mark(v, 4, '-') && has_mark(v, 7, '-') && has_mark(v, 10, 'T') && has_mark(
                v,
                13,
                ':',
            ) && has_mark(v, 16, ':') && 1 <= month && month <= 12 && 1 <= day && day <= 31 && hour
                <= 23 && minute <= 59 && second <= 60 {
                Some(Civil { year, month, day, hour, minute, second })
            } else {
                None
            }
        },
        _ => None,
    }
}

/// A number that stands in two bytes is small.
proof fn lemma_short_number(s: Seq<char>, n: nat)
    requires
        number::all_digits(s),
        s.len() <= n,
        n <= 2,
    ensures
        0 <= number::digits_value(s) <= 99,
{
    reveal_with_fuel(number::digits_value, 3);
    if s.len() > 0 {
        assert(number::is_digit(s[s.len() - 1]));
        assert(s.drop_last().len() == s.len() - 1);
        if s.len() > 1 {
            assert(s.drop_last()[0] == s[0]);
            assert(number::is_digit(s[0]));
        }
    }
}

proof fn lemma_signed_at_small(v: Seq<char>, from: int)
    ensures
        signed_at(v, from, from + 2) matches Some(n) ==> -99 <= n <= 99,
{
    if let Some(s) = encoding::byte_slice(v, from, from + 2) {
        let a = encoding::char_index(v, from);
        let b = encoding::char_index(v, from + 2);
        if a <= b {
            encoding::lemma_byte_offset_monotone(v, a, b);
        } else {
            encoding::lemma_byte_offset_monotone(v, b, a);
        }
        assert(s.len() <= 2);
        if number::all_digits(s) {
            lemma_short_number(s, 2);
        }
        if s.len() > 0 && number::all_digits(s.drop_first()) {
            lemma_short_number(s.drop_first(), 2);
        }
    }
}

fn read_zone(tz: &[char]) -> (r: Option<i64>)
    requires
        encoding::byte_len(tz@) <= usize::MAX,
    ensures
        match r {
            Some(n) => zone_offset(tz@) == Some(n as int) && -1_000_000 < n < 1_000_000,
            None => zone_offset(tz@) is None,
        },
{
    proof {
        reveal(zone_offset);
    }
    if tz.len() == 1 && (tz[0] == 'Z' || tz[0] == 'z') {
        proof {
            assert(tz@ =~= seq![tz@[0]]);
        }
        return Some(0);
    }
    if tz.len() == 0 {
        return None;
    }
    if tz[0] != '+' && tz[0] != '-' {
        return None;
    }
    proof {
        lemma_signed_at_small(tz@, 1);
        lemma_signed_at_small(tz@, 3);
        lemma_signed_at_small(tz@, 4);
    }
    let hours = match read_signed(tz, 1, 3) {
        Some(h) => h,
        None => {
            return None;
        },
    };
    let colon = match char_at_offset(tz, 3) {
        Some(k) => k < tz.len() && tz[k] == ':',
        None => false,
    };
    let minutes = if colon {
        read_signed(tz, 4, 6)
    } else {
        read_signed(tz, 3, 5)
    };
    match minutes {
        Some(m) => {
            if hours > 23 || m > 59 {
                None
            } else if tz[0] == '+' {
                Some(hours * 3600 + m * 60)
            } else {
                Some(-(hours * 3600 + m * 60))
            }
        },
        None => None,
    }
}

fn secs_of(c: &Civil) -> (r: i64)
    requires
        c.hour <= 23,
        c.minute <= 59,
        c.second <= 60,
        1 <= c.month <= 12,
        1 <= c.day <= 31,
    ensures
        r == civil_secs(*c),
        -100_000_000_000_000_000 < r < 100_000_000_000_000_000,
{
    let days: i64 = days_from_civil(c.year, c.month, c.day);
    days * 86_400 + c.hour as i64 * 3600 + c.minute as i64 * 60 + c.second as i64
}

fn find_zone(v: &[char]) -> (r: Option<usize>)
    requires
        encoding::byte_len(v@) <= usize::MAX,
    ensures
        match r {
            Some(k) => k == zone_start(v@) && k <= v@.len(),
            None => !encoding::is_boundary(v@, 19),
        },
{
    let count: usize = v.len();
    match char_at_offset(v, 19) {
        Some(at) => {
            let mut k: usize = at;
            if k < count && v[k] == '.' {
                k += 1;
                let ghost first = k as int;
                while k < count && '0' <= v[k] && v[k] <= '9'
                    invariant
                        first <= k <= count == v@.len(),
                        after_digits(v@, first) == after_digits(v@, k as int),
                    decreases count - k,
                {
                    k += 1;
                }
            }
            Some(k)
        },
        None => None,
    }
}

/// Reads a point in time as RFC 3339 writes it.
pub fn parse_rfc3339_to_system_time(value: &str) -> (r: Option<Timestamp>)
    ensures
        match r {
            Some(t) => rfc3339_secs(value@) matches Some(secs) && t.nanos == secs * 1_000_000_000,
            None => rfc3339_secs(value@) is None,
        },
{
    let chars = chars_of(value);
    let v = trimmed(chars.as_slice());
    let whole = string_of(v.as_slice());
    if encoding::byte_length(whole.as_str()) < 20 {
        return None;
    }
    let c = match read_civil(v.as_slice()) {
        Some(c) => c,
        None => {
            return None;
        },
    };
    match find_zone(v.as_slice()) {
        Some(k) => {
            let tz = sub_chars(v.as_slice(), k, v.len());
            proof {
                assert(tz@ =~= v@.skip(k as int));
                assert(v@ =~= v@.take(k as int) + tz@);
                encoding::lemma_byte_len_concat(v@.take(k as int), tz@);
            }
            match read_zone(tz.as_slice()) {
                Some(offset) => {
                    let secs: i64 = secs_of(&c) - offset;
                    Some(Timestamp { nanos: secs as i128 * 1_000_000_000 })
                },
                None => None,
            }
        },
        None => None,
    }
}

// ---------------------------------------------------------------------------
// What a written time means
// ---------------------------------------------------------------------------

/// A number below a hundred in two digits.
pub open spec fn two_digits(n: nat) -> Seq<char> {
    seq![number::digit_char(n / 10), number::digit_char(n % 10)]
}

/// A date and a time of day: `YYYY-MM-DDThh:mm:ss`.
pub open spec fn written(y: nat, mo: nat, d: nat, h: nat, mi: nat, s: nat) -> Seq<char> {
    two_digits(y / 100) + two_digits(y % 100) + seq!['-'] + two_digits(mo) + seq!['-']
        + two_digits(d) + seq!['T'] + two_digits(h) + seq![':'] + two_digits(mi) + seq![':']
        + two_digits(s)
}

proof fn lemma_digit(d: nat)
    requires
        d < 10,
    ensures
        number::is_digit(number::digit_char(d)),
        number::digit_value(number::digit_char(d)) == d,
        !text::is_whitespace(number::digit_char(d)),
        '\0' <= number::digit_char(d) && number::digit_char(d) <= '\u{7f}',
{
}

proof fn lemma_two_digits(n: nat, limit: int)
    requires
        n < 100 <= limit,
    ensures
        number::parse_unsigned(two_digits(n), limit) == Some(n as int),
        number::parse_signed(two_digits(n), i64::MIN as int, limit) == Some(n as int),
{
    let s = two_digits(n);
    lemma_digit(n / 10);
    lemma_digit(n % 10);
    reveal_with_fuel(number::digits_value, 3);
    assert(s.drop_last() =~= seq![s[0]]);
    assert(s.drop_last().drop_last() =~= Seq::<char>::empty());
    assert(number::all_digits(s));
}

proof fn lemma_four_digits(y: nat)
    requires
        y < 10_000,
    ensures
        number::parse_signed(
            two_digits(y / 100) + two_digits(y % 100),
            i32::MIN as int,
            i32::MAX as int,
        ) == Some(y as int),
{
    let s = two_digits(y / 100) + two_digits(y % 100);
    lemma_digit(y / 100 / 10);
    lemma_digit(y / 100 % 10);
    lemma_digit(y % 100 / 10);
    lemma_digit(y % 100 % 10);
    reveal_with_fuel(number::digits_value, 5);
    assert(s.drop_last() =~= seq![s[0], s[1], s[2]]);
    assert(s.drop_last().drop_last() =~= seq![s[0], s[1]]);
    assert(s.drop_last().drop_last().drop_last() =~= seq![s[0]]);
    assert(s.drop_last().drop_last().drop_last().drop_last() =~= Seq::<char>::empty());
    assert(number::all_digits(s));
}

proof fn lemma_ascii_index(v: Seq<char>, k: int)
    requires
        is_ascii_chars(v),
        0 <= k <= v.len(),
    ensures
        encoding::is_boundary(v, k),
        encoding::char_index(v, k) == k,
{
    assert forall|i: int| 0 <= i < v.take(k).len() implies '\0' <= #[trigger] v.take(k)[i]
        && v.take(k)[i] <= '\u{7f}' by {
        assert(v.take(k)[i] == v[i]);
    }
    encoding::lemma_byte_len_ascii(v.take(k));
    encoding::lemma_char_index(v, k);
}

proof fn lemma_ascii_slice(v: Seq<char>, from: int, to: int, part: Seq<char>)
    requires
        is_ascii_chars(v),
        0 <= from <= to <= v.len(),
        v.subrange(from, to) == part,
    ensures
        encoding::byte_slice(v, from, to) == Some(part),
{
    lemma_ascii_index(v, from);
    lemma_ascii_index(v, to);
}

proof fn lemma_written_is_ascii(y: nat, mo: nat, d: nat, h: nat, mi: nat, s: nat)
    requires
        y < 10_000 && mo < 100 && d < 100 && h < 100 && mi < 100 && s < 100,
    ensures
        is_ascii_chars(written(y, mo, d, h, mi, s)),
        written(y, mo, d, h, mi, s).len() == 19,
        !text::is_whitespace(written(y, mo, d, h, mi, s)[0]),
{
    lemma_digit(y / 100 / 10);
    lemma_digit(y / 100 % 10);
    lemma_digit(y % 100 / 10);
    lemma_digit(y % 100 % 10);
    lemma_digit(mo / 10);
    lemma_digit(mo % 10);
    lemma_digit(d / 10);
    lemma_digit(d % 10);
    lemma_digit(h / 10);
    lemma_digit(h % 10);
    lemma_digit(mi / 10);
    lemma_digit(mi % 10);
    lemma_digit(s / 10);
    lemma_digit(s % 10);
}

proof fn lemma_civil_of_written(
    y: nat,
    mo: nat,
    d: nat,
    h: nat,
    mi: nat,
    s: nat,
    zone: Seq<char>,
)
    requires
        y < 10_000 && 1 <= mo <= 12 && 1 <= d <= 31 && h <= 23 && mi <= 59 && s <= 60,
        is_ascii_chars(zone),
    ensures
        civil_at(written(y, mo, d, h, mi, s) + zone) matches Some(c) && c.year == y && c.month
            == mo && c.day == d && c.hour == h && c.minute == mi && c.second == s,
        is_ascii_chars(written(y, mo, d, h, mi, s) + zone),
{
    reveal(civil_at);
    let w = written(y, mo, d, h, mi, s);
    let v = w + zone;
    lemma_written_is_ascii(y, mo, d, h, mi, s);
    assert forall|i: int| 0 <= i < v.len() implies '\0' <= #[trigger] v[i] && v[i] <= '\u{7f}' by {
        if i < 19 {
            assert(v[i] == w[i]);
        } else {
            assert(v[i] == zone[i - 19]);
        }
    }
    let year = two_digits(y / 100) + two_digits(y % 100);
    assert(v.subrange(0, 4) =~= year);
    assert(v.subrange(5, 7) =~= two_digits(mo));
    assert(v.subrange(8, 10) =~= two_digits(d));
    assert(v.subrange(11, 13) =~= two_digits(h));
    assert(v.subrange(14, 16) =~= two_digits(mi));
    assert(v.subrange(17, 19) =~= two_digits(s));
    assert(v.subrange(4, 5) =~= seq!['-']);
    assert(v.subrange(7, 8) =~= seq!['-']);
    assert(v.subrange(10, 11) =~= seq!['T']);
    assert(v.subrange(13, 14) =~= seq![':']);
    assert(v.subrange(16, 17) =~= seq![':']);
    lemma_ascii_slice(v, 0, 4, year);
    lemma_ascii_slice(v, 5, 7, two_digits(mo));
    lemma_ascii_slice(v, 8, 10, two_digits(d));
    lemma_ascii_slice(v, 11, 13, two_digits(h));
    lemma_ascii_slice(v, 14, 16, two_digits(mi));
    lemma_ascii_slice(v, 17, 19, two_digits(s));
    lemma_ascii_slice(v, 4, 5, seq!['-']);
    lemma_ascii_slice(v, 7, 8, seq!['-']);
    lemma_ascii_slice(v, 10, 11, seq!['T']);
    lemma_ascii_slice(v, 13, 14, seq![':']);
    lemma_ascii_slice(v, 16, 17, seq![':']);
    lemma_four_digits(y);
    lemma_two_digits(mo, u32::MAX as int);
    lemma_two_digits(d, u32::MAX as int);
    lemma_two_digits(h, u32::MAX as int);
    lemma_two_digits(mi, u32::MAX as int);
    lemma_two_digits(s, u32::MAX as int);
}

proof fn lemma_trim_solid(v: Seq<char>)
    requires
        v.len() > 0,
        !text::is_whitespace(v[0]),
        !text::is_whitespace(v.last()),
    ensures
        text::trim(v) == v,
{
}

/// A time that is written as `YYYY-MM-DDThh:mm:ssZ` lies as many days behind the start of 1970 as
/// its date does, and its hours, minutes and seconds behind the start of that day.
pub proof fn lemma_utc_time(y: nat, mo: nat, d: nat, h: nat, mi: nat, s: nat)
    requires
        y < 10_000 && 1 <= mo <= 12 && 1 <= d <= 31 && h <= 23 && mi <= 59 && s <= 60,
    ensures
        rfc3339_secs(written(y, mo, d, h, mi, s) + seq!['Z']) == Some(
            ((civil_days(y as int, mo as int, d as int) * 24 + h) * 60 + mi) * 60 + s,
        ),
{
    let w = written(y, mo, d, h, mi, s);
    let v = w + seq!['Z'];
    lemma_written_is_ascii(y, mo, d, h, mi, s);
    lemma_civil_of_written(y, mo, d, h, mi, s, seq!['Z']);
    assert(v[0] == w[0]);
    lemma_trim_solid(v);
    encoding::lemma_byte_len_ascii(v);
    lemma_ascii_index(v, 19);
    assert(v.skip(19) =~= seq!['Z']);
    reveal(zone_offset);
}

/// In a zone that is ahead, or behind, the same time of day comes as much earlier, or later.
pub proof fn lemma_zoned_time(
    y: nat,
    mo: nat,
    d: nat,
    h: nat,
    mi: nat,
    s: nat,
    zh: nat,
    zm: nat,
)
    requires
        y < 10_000 && 1 <= mo <= 12 && 1 <= d <= 31 && h <= 23 && mi <= 59 && s <= 60,
        zh <= 23 && zm <= 59,
    ensures
        ({
            let w = written(y, mo, d, h, mi, s);
            let utc = rfc3339_secs(w + seq!['Z'])->0;
            let zone = two_digits(zh) + seq![':'] + two_digits(zm);
            &&& rfc3339_secs(w + (seq!['+'] + zone)) == Some(utc - (zh * 60 + zm) * 60)
            &&& rfc3339_secs(w + (seq!['-'] + zone)) == Some(utc + (zh * 60 + zm) * 60)
        }),
{
    lemma_utc_time(y, mo, d, h, mi, s);
    lemma_one_zone(y, mo, d, h, mi, s, zh, zm, '+');
    lemma_one_zone(y, mo, d, h, mi, s, zh, zm, '-');
}

proof fn lemma_one_zone(
    y: nat,
    mo: nat,
    d: nat,
    h: nat,
    mi: nat,
    s: nat,
    zh: nat,
    zm: nat,
    sign: char,
)
    requires
        y < 10_000 && 1 <= mo <= 12 && 1 <= d <= 31 && h <= 23 && mi <= 59 && s <= 60,
        zh <= 23 && zm <= 59,
        sign == '+' || sign == '-',
    ensures
        ({
            let w = written(y, mo, d, h, mi, s);
            let zone = two_digits(zh) + seq![':'] + two_digits(zm);
            let ahead = (zh * 60 + zm) * 60;
            rfc3339_secs(w + (seq![sign] + zone)) == Some(
                ((civil_days(y as int, mo as int, d as int) * 24 + h) * 60 + mi) * 60 + s - if sign
                    == '+' {
                    ahead as int
                } else {
                    -ahead
                },
            )
        }),
{
    let w = written(y, mo, d, h, mi, s);
    let zone = two_digits(zh) + seq![':'] + two_digits(zm);
    let tz = seq![sign] + zone;
    let v = w + tz;
    lemma_written_is_ascii(y, mo, d, h, mi, s);
    lemma_digit(zh / 10);
    lemma_digit(zh % 10);
    lemma_digit(zm / 10);
    lemma_digit(zm % 10);
    assert(is_ascii_chars(tz));
    lemma_civil_of_written(y, mo, d, h, mi, s, tz);
    assert(v[0] == w[0]);
    assert(v.last() == two_digits(zm)[1]);
    lemma_trim_solid(v);
    encoding::lemma_byte_len_ascii(v);
    lemma_ascii_index(v, 19);
    assert(v[19] == sign);
    assert(v.skip(19) =~= tz);
    reveal(zone_offset);
    lemma_ascii_index(tz, 3);
    assert(tz[3] == ':');
    assert(tz.subrange(1, 3) =~= two_digits(zh));
    assert(tz.subrange(4, 6) =~= two_digits(zm));
    lemma_ascii_slice(tz, 1, 3, two_digits(zh));
    lemma_ascii_slice(tz, 4, 6, two_digits(zm));
    lemma_two_digits(zh, i64::MAX as int);
    lemma_two_digits(zm, i64::MAX as int);
}

} // verus!
