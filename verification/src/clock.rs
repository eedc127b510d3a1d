//! Points in time.
use vstd::prelude::*;

use crate::number;
use crate::number::decimal_text;

verus! {

/// A point in time, in nanoseconds since the Unix epoch.
#[derive(Clone, Copy, Debug, PartialEq, Eq, Structural)]
pub struct Timestamp {
    pub nanos: i128,
}

pub const NANOS_PER_SEC: i128 = 1_000_000_000;

pub const NANOS_PER_MILLI: i128 = 1_000_000;

/// How far back a file counts as recent, as `fd` takes it.
pub const FILE_LOOKBACK_WINDOW: &'static str = "9d";

/// How far back a file counts as recent, in seconds.
pub const FILE_LOOKBACK_WINDOW_SECS: u64 = 777_600;

impl Timestamp {
    /// The Unix epoch.
    pub fn epoch() -> (r: Timestamp)
        ensures
            r.nanos == 0,
    {
        Timestamp { nanos: 0 }
    }
}

/// How many whole seconds a span has that starts at the epoch: none before it,
/// and no more than fit.
pub open spec fn whole_secs(nanos: int) -> int {
    if nanos < 0 {
        0
    } else if nanos / 1_000_000_000 > u64::MAX {
        u64::MAX as int
    } else {
        nanos / 1_000_000_000
    }
}

/// The seconds since the Unix epoch, zero before it.
pub fn system_time_to_unix_secs(time: Timestamp) -> (r: u64)
    ensures
        r == whole_secs(time.nanos as int),
{
    if time.nanos < 0 {
        return 0;
    }
    let secs: i128 = time.nanos / NANOS_PER_SEC;
    if secs > u64::MAX as i128 {
        u64::MAX
    } else {
        secs as u64
    }
}

/// The point in time some seconds after the Unix epoch.
pub fn unix_secs_to_system_time(secs: u64) -> (r: Timestamp)
    ensures
        r.nanos == secs * 1_000_000_000,
{
    Timestamp { nanos: secs as i128 * NANOS_PER_SEC }
}

/// A number of seconds survives being made a point in time.
pub proof fn lemma_unix_secs_round_trip(secs: u64)
    ensures
        whole_secs(secs * 1_000_000_000) == secs,
{
}

/// The milliseconds since the Unix epoch, zero before it.
pub fn unix_time_ms(now: Timestamp) -> (r: u128)
    ensures
        r == if now.nanos < 0 {
            0
        } else {
            now.nanos as int / 1_000_000
        },
        now.nanos >= 0 ==> r * 1_000_000 <= now.nanos < (r + 1) * 1_000_000,
{
    if now.nanos < 0 {
        0
    } else {
        (now.nanos / NANOS_PER_MILLI) as u128
    }
}

/// How far back a file counts as recent, in seconds.
pub fn recent_window() -> (r: u64)
    ensures
        r == FILE_LOOKBACK_WINDOW_SECS,
{
    FILE_LOOKBACK_WINDOW_SECS
}

/// The nanoseconds from a point in time to now, zero if it lies ahead.
pub open spec fn elapsed(now: Timestamp, time: Timestamp) -> int {
    if now.nanos < time.nanos {
        0
    } else {
        now.nanos - time.nanos
    }
}

/// The nanoseconds from a point in time to now, zero if it lies ahead.
pub fn elapsed_nanos(now: Timestamp, time: Timestamp) -> (r: u128)
    ensures
        r == elapsed(now, time),
{
    if now.nanos < time.nanos {
        0
    } else if time.nanos >= 0 || now.nanos < 0 {
        (now.nanos - time.nanos) as u128
    } else {
        let before: u128 = (-(time.nanos + 1)) as u128;
        now.nanos as u128 + before + 1
    }
}

/// Whether a point in time is recent: not before the window that ends now. What
/// lies ahead is recent.
pub open spec fn within_window(now: Timestamp, time: Timestamp) -> bool {
    now.nanos - time.nanos <= FILE_LOOKBACK_WINDOW_SECS * 1_000_000_000
}

/// Whether a point in time is recent.
pub fn is_within_recent_window(now: Timestamp, time: Timestamp) -> (r: bool)
    ensures
        r == within_window(now, time),
{
    elapsed_nanos(now, time) <= recent_window() as u128 * 1_000_000_000
}

/// An age in whole seconds, minutes, hours or days, whichever is the largest unit
/// that fits.
pub open spec fn age_text(secs: int) -> Seq<char> {
    if secs < 60 {
        number::decimal(secs as nat) + seq!['s']
    } else if secs < 3600 {
        number::decimal((secs / 60) as nat) + seq!['m']
    } else if secs < 86400 {
        number::decimal((secs / 3600) as nat) + seq!['h']
    } else {
        number::decimal((secs / 86400) as nat) + seq!['d']
    }
}

/// The age of a point in time. What lies ahead has the age zero.
pub fn time_ago(now: Timestamp, mtime: Timestamp) -> (r: String)
    ensures
        r@ == age_text(elapsed(now, mtime) / 1_000_000_000),
{
    let secs: u128 = elapsed_nanos(now, mtime) / 1_000_000_000;
    let (count, unit): (u128, char) = if secs < 60 {
        (secs, 's')
    } else if secs < 3600 {
        (secs / 60, 'm')
    } else if secs < 86400 {
        (secs / 3600, 'h')
    } else {
        (secs / 86400, 'd')
    };
    let mut r = decimal_text(count);
    r.push(unit);
    proof {
        assert(number::decimal(count as nat).push(unit) =~= number::decimal(count as nat) + seq![
            unit,
        ]);
    }
    r
}

/// The seconds since the epoch are whole ones: the time lies in the second that they
/// count up to. Before the epoch there are none.
pub proof fn lemma_whole_secs(nanos: int, later: int)
    requires
        nanos <= later,
    ensures
        0 <= nanos && whole_secs(nanos) < u64::MAX ==> whole_secs(nanos) * 1_000_000_000 <= nanos
            < (whole_secs(nanos) + 1) * 1_000_000_000,
        nanos < 0 ==> whole_secs(nanos) == 0,
        0 <= whole_secs(nanos) <= whole_secs(later) <= u64::MAX,
{
}

/// What has gone by leads from the time to now. For what lies ahead nothing has.
pub proof fn lemma_elapsed(now: Timestamp, time: Timestamp)
    ensures
        elapsed(now, time) >= 0,
        time.nanos <= now.nanos ==> time.nanos + elapsed(now, time) == now.nanos,
        time.nanos > now.nanos ==> elapsed(now, time) == 0,
{
}

/// If a point in time is recent, a later one is too. One as far back as the window is
/// long still is, and one further back is not.
pub proof fn lemma_window(now: Timestamp, time: Timestamp, later: Timestamp)
    ensures
        within_window(now, time) && time.nanos <= later.nanos ==> within_window(now, later),
        now.nanos <= time.nanos ==> within_window(now, time),
        within_window(now, time) <==> elapsed(now, time) <= 9 * 24 * 3600 * 1_000_000_000,
{
}

} // verus!
