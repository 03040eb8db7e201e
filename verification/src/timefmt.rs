//! Clock reads and the age strings shown next to each command. Every timestamp in padloper is unix
//! seconds.

use std::time::{SystemTime, UNIX_EPOCH};

use vstd::prelude::*;

use crate::text::{decimal, decimal_reads_back, decimal_string, is_digit};
use crate::unicode::printable;

verus! {

/// `SystemTime::now`, as whole seconds since the epoch, or None for a clock set before it. Nothing
/// is claimed of what the clock says.
#[verifier::external_body]
fn clock() -> (seconds: Option<u64>) {
    SystemTime::now().duration_since(UNIX_EPOCH).ok().map(|d| d.as_secs())
}

/// What a clock reading is taken for. A clock set before the epoch reads as 0 rather than failing:
/// a wrong age beats refusing to record a command. One set past the last second that a timestamp
/// can hold reads as that second.
pub fn clock_reading(seconds: Option<u64>) -> (now: i64)
    ensures
        now == match seconds {
            Some(s) => if s <= i64::MAX {
                s as i64
            } else {
                i64::MAX
            },
            None => 0i64,
        },
        now >= 0,
{
    match seconds {
        Some(s) => if s <= 9223372036854775807 {
            s as i64
        } else {
            i64::MAX
        },
        None => 0,
    }
}

/// The wall clock in unix seconds, never before the epoch.
pub fn unix_now() -> (now: i64)
    ensures
        now >= 0,
{
    clock_reading(clock())
}

/// A count of some unit of time.
pub open spec fn counted(n: int, unit: Seq<char>) -> Seq<char> {
    decimal(n as nat) + unit
}

/// How long ago something happened, as a glance: months are 30 days and years are 365. A time
/// ahead of the clock counts as now.
pub open spec fn age(now: int, ts: int) -> Seq<char> {
    let d = now - ts;
    if d < 60 {
        "now"@
    } else if d < 3600 {
        counted(d / 60, "m"@)
    } else if d < 86400 {
        counted(d / 3600, "h"@)
    } else if d < 7 * 86400 {
        counted(d / 86400, "d"@)
    } else if d < 30 * 86400 {
        counted(d / 604800, "w"@)
    } else if d < 365 * 86400 {
        counted(d / 2592000, "mo"@)
    } else {
        counted(d / 31536000, "y"@)
    }
}

fn count_of(n: u64, unit: &str) -> (text: String)
    ensures
        text@ == counted(n as int, unit@),
{
    let mut text = decimal_string(n);
    text.append(unit);
    text
}

/// Coarse age for display: now, 5m, 3h, 2d, 4w, 6mo, 2y.
///
/// Clocks move backwards (ntp, suspend), and imported rows can carry a future timestamp, so an age
/// is never negative.
pub fn relative_time(now: i64, ts: i64) -> (text: String)
    ensures
        text@ == age(now as int, ts as int),
{
    let difference: i128 = now as i128 - ts as i128;
    if difference < 60 {
        return "now".to_owned();
    }
    let d: u64 = difference as u64;
    if d < 3600 {
        count_of(d / 60, "m")
    } else if d < 86400 {
        count_of(d / 3600, "h")
    } else if d < 604800 {
        count_of(d / 86400, "d")
    } else if d < 2592000 {
        count_of(d / 604800, "w")
    } else if d < 31536000 {
        count_of(d / 2592000, "mo")
    } else {
        count_of(d / 31536000, "y")
    }
}

/// A timestamp ahead of the clock reads as now.
pub proof fn a_timestamp_ahead_of_the_clock_reads_as_now(now: int, ts: int)
    requires
        ts >= now,
    ensures
        age(now, ts) == "now"@,
{
}

proof fn lemma_decimal_short(n: nat, digits: nat)
    requires
        digits > 0,
        n < vstd::arithmetic::power::pow(10, digits),
    ensures
        decimal(n).len() <= digits,
    decreases digits,
{
    vstd::arithmetic::power::lemma_pow1(10);
    if n >= 10 {
        if digits == 1 {
            assert(false);
        }
        vstd::arithmetic::power::lemma_pow_adds(10, 1, (digits - 1) as nat);
        assert(n / 10 < vstd::arithmetic::power::pow(10, (digits - 1) as nat));
        lemma_decimal_short(n / 10, (digits - 1) as nat);
    }
}

proof fn lemma_counted(n: int, unit: Seq<char>)
    requires
        0 <= n < 1_000_000_000_000,
        printable(unit),
        unit.len() <= 2,
    ensures
        printable(counted(n, unit)),
        0 < counted(n, unit).len() <= 14,
{
    let d = decimal(n as nat);
    decimal_reads_back(n as nat);
    let text = counted(n, unit);
    assert forall|i: int| 0 <= i < text.len() implies ' ' <= #[trigger] text[i] <= '~' by {
        if i < d.len() {
            assert(is_digit(d[i]));
        } else {
            assert(text[i] == unit[i - d.len()]);
        }
    }
    assert(vstd::arithmetic::power::pow(10, 12) == 1_000_000_000_000) by {
        reveal_with_fuel(vstd::arithmetic::power::pow, 13);
    }
    lemma_decimal_short(n as nat, 12);
}

/// An age is a few printable characters.
pub proof fn an_age_is_short_and_printable(now: int, ts: int)
    requires
        i64::MIN <= now <= i64::MAX,
        i64::MIN <= ts <= i64::MAX,
    ensures
        printable(age(now, ts)),
        0 < age(now, ts).len() <= 14,
{
    reveal_strlit("now");
    reveal_strlit("m");
    reveal_strlit("h");
    reveal_strlit("d");
    reveal_strlit("w");
    reveal_strlit("mo");
    reveal_strlit("y");
    let d = now - ts;
    if d < 60 {
        assert(age(now, ts) == "now"@);
    } else if d < 3600 {
        lemma_counted(d / 60, "m"@);
    } else if d < 86400 {
        lemma_counted(d / 3600, "h"@);
    } else if d < 7 * 86400 {
        lemma_counted(d / 86400, "d"@);
    } else if d < 30 * 86400 {
        lemma_counted(d / 604800, "w"@);
    } else if d < 365 * 86400 {
        lemma_counted(d / 2592000, "mo"@);
    } else {
        lemma_counted(d / 31536000, "y"@);
    }
}

/// An age counts whole units, as many as fit in the time that has passed and no more. Below a
/// minute it is now. Minutes count up to an hour, hours to a day, days to a week, weeks to thirty
/// days, months of thirty days to a year of 365 days, and years from there on.
pub proof fn an_age_counts_the_whole_units_that_have_passed(d: int, ts: int, n: nat)
    ensures
        ({
            let text = age(ts + d, ts);
            &&& d < 60 ==> text == "now"@
            &&& 60 <= d < 3600 && 60 * n <= d < 60 * (n + 1) ==> text == decimal(n) + "m"@
            &&& 3600 <= d < 86400 && 3600 * n <= d < 3600 * (n + 1) ==> text == decimal(n) + "h"@
            &&& 86400 <= d < 7 * 86400 && 86400 * n <= d < 86400 * (n + 1) ==> text == decimal(n)
                + "d"@
            &&& 7 * 86400 <= d < 30 * 86400 && 604800 * n <= d < 604800 * (n + 1) ==> text
                == decimal(n) + "w"@
            &&& 30 * 86400 <= d < 365 * 86400 && 2592000 * n <= d < 2592000 * (n + 1) ==> text
                == decimal(n) + "mo"@
            &&& 365 * 86400 <= d && 31536000 * n <= d < 31536000 * (n + 1) ==> text == decimal(n)
                + "y"@
        }),
{
}

} // verus!
