//! The time of day: as a number of seconds since the epoch, and as text.

use vstd::prelude::*;
use vstd::string::*;

use crate::outside::{iso_from_timestamp, iso_text, is_time_char, reads_as, shows_a_second, utc_now, wall_clock, LAST_FOUR_DIGIT_SECOND};

verus! {

/// The text is made of what a time is shown with.
pub open spec fn is_time(s: Seq<char>) -> bool {
    forall|i: int| 0 <= i < s.len() ==> is_time_char(#[trigger] s[i])
}

/// The text is what the calendar's own clock showed when it was asked.
pub closed spec fn is_present(s: Seq<char>) -> bool {
    exists|u: String| #[trigger] call_ensures(utc_now, (), u) && u@ == s
}

/// The present time as text: a second as `iso_from_epoch_secs` shows it. Up to the end
/// of the year 9999 it reads as that second.
pub fn iso_now() -> (r: String)
    ensures
        is_time(r@),
        shows_a_second(r@),
        is_present(r@),
{
    utc_now()
}

/// A time given in seconds since the epoch, as text; the present time where the
/// calendar does not reach. Up to the end of the year 9999 the text reads as the
/// same second.
pub fn iso_from_epoch_secs(secs: u64) -> (r: String)
    ensures
        match iso_text(secs as i64) {
            Some(t) => r@ == t,
            None => is_time(r@) && is_present(r@),
        },
        secs <= LAST_FOUR_DIGIT_SECOND ==> reads_as(r@, secs as i64),
{
    let shown = iso_from_timestamp(
        #[verifier::truncate]
        (secs as i64),
    );
    match shown {
        Some(t) => t,
        None => utc_now(),
    }
}

/// The clock can be read so: as whole seconds since the epoch and the nanoseconds beyond
/// them, or as nothing where it stands before the epoch.
pub closed spec fn is_reading(t: Option<(u64, u32)>) -> bool {
    call_ensures(wall_clock, (), t)
}

/// The seconds since the epoch of a reading of the clock: whole seconds and the
/// nanoseconds beyond them, or nothing for a clock that stands before the epoch, which
/// counts as zero.
pub fn epoch_secs_at(reading: Option<(u64, u32)>) -> (r: u64)
    ensures
        r == (match reading {
            Some(t) => t.0,
            None => 0,
        }),
{
    match reading {
        Some((secs, _)) => secs,
        None => 0,
    }
}

/// The seconds since the epoch of a reading of the clock, as rows hold them.
pub fn unix_at(reading: Option<(u64, u32)>) -> (r: i64)
    ensures
        r == (match reading {
            Some(t) => t.0 as i64,
            None => 0,
        }),
{
    match reading {
        Some((secs, _)) => #[verifier::truncate] (secs as i64),
        None => 0,
    }
}

/// The nanoseconds within the second of a reading of the clock.
pub fn subsec_nanos_at(reading: Option<(u64, u32)>) -> (r: u32)
    ensures
        r == (match reading {
            Some(t) => t.1,
            None => 0,
        }),
{
    match reading {
        Some((_, nanos)) => nanos,
        None => 0,
    }
}

/// The present time in seconds since the epoch; zero for a clock that stands
/// before it. Which time that is, the clock decides.
pub fn epoch_secs_now() -> (r: u64)
    ensures
        exists|t: Option<(u64, u32)>| #[trigger]
            is_reading(t) && r == (match t {
                Some(x) => x.0,
                None => 0,
            }),
{
    let t = wall_clock();
    assert(is_reading(t));
    epoch_secs_at(t)
}

/// The present time in seconds since the epoch, as rows hold it. Which time that is,
/// the clock decides.
pub fn unix_now() -> (r: i64)
    ensures
        exists|t: Option<(u64, u32)>| #[trigger]
            is_reading(t) && r == (match t {
                Some(x) => x.0 as i64,
                None => 0,
            }),
{
    let t = wall_clock();
    assert(is_reading(t));
    unix_at(t)
}

/// The nanoseconds are those of a reading of the clock; zero for a clock that stands
/// before the epoch.
pub open spec fn is_present_nanos(nanos: u32) -> bool {
    exists|t: Option<(u64, u32)>| #[trigger]
        is_reading(t) && nanos == (match t {
            Some(x) => x.1,
            None => 0,
        })
}

/// The nanoseconds within the present second; zero for a clock that stands
/// before the epoch.
pub fn subsec_nanos_now() -> (r: u32)
    ensures
        r < 1_000_000_000,
        is_present_nanos(r),
{
    let t = wall_clock();
    assert(is_reading(t));
    subsec_nanos_at(t)
}

/// A reading of the clock is taken as it is, and a clock that stands before the epoch counts
/// as standing at it.
pub proof fn law_reading_is_taken_as_it_is(
    reading: Option<(u64, u32)>,
    secs: u64,
    unix: i64,
    nanos: u32,
)
    requires
        call_ensures(epoch_secs_at, (reading,), secs),
        call_ensures(unix_at, (reading,), unix),
        call_ensures(subsec_nanos_at, (reading,), nanos),
    ensures
        reading is Some ==> reading == Some((secs, nanos)),
        reading is None ==> secs == 0 && unix == 0 && nanos == 0,
        secs <= i64::MAX ==> unix == secs,
{
}

} // verus!
