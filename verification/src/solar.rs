use vstd::prelude::*;

use crate::{Error, SunState};

verus! {

/// True when the reference instant lies in the half-open daylight window
/// `[sunrise, sunset)`.
pub open spec fn sun_is_up(sunrise: int, sunset: int, now: int) -> bool {
    sunrise <= now < sunset
}

/// Classifies a reference instant against the daylight window: `Up` on
/// `[sunrise, sunset)`, `Down` everywhere else (all in seconds of one clock).
/// An instant exactly at sunrise counts as `Up`; one exactly at sunset as
/// `Down`.
pub fn classify(sunrise: i64, sunset: i64, now: i64) -> (state: SunState)
    ensures
        state == (if sun_is_up(sunrise as int, sunset as int, now as int) {
            SunState::Up
        } else {
            SunState::Down
        }),
{
    if sunrise <= now && now < sunset {
        SunState::Up
    } else {
        SunState::Down
    }
}

/// An ASCII decimal digit.
pub open spec fn is_digit(b: u8) -> bool {
    48 <= b && b <= 57
}

/// The value of an ASCII decimal digit.
pub open spec fn dv(b: u8) -> int {
    b - 48
}

/// Decides `is_digit`.
pub fn digit(b: u8) -> (r: bool)
    ensures
        r == is_digit(b),
{
    48 <= b && b <= 57
}

/// A 12-hour clock string has the shape `H:MM:SS XM` or `HH:MM:SS XM`, where
/// `X` is `A` or `P` (as the solar-event source reports times, e.g.
/// `6:32:00 AM`).
pub open spec fn time_shape_ok(s: Seq<u8>) -> bool {
    if s.len() == 10 {
        is_digit(s[0]) && s[1] == 58 && is_digit(s[2]) && is_digit(s[3]) && s[4] == 58 && is_digit(
            s[5],
        ) && is_digit(s[6]) && s[7] == 32 && (s[8] == 65 || s[8] == 80) && s[9] == 77
    } else if s.len() == 11 {
        is_digit(s[0]) && is_digit(s[1]) && s[2] == 58 && is_digit(s[3]) && is_digit(s[4]) && s[5]
            == 58 && is_digit(s[6]) && is_digit(s[7]) && s[8] == 32 && (s[9] == 65 || s[9] == 80)
            && s[10] == 77
    } else {
        false
    }
}

/// The hour field on the 12-hour clock.
pub open spec fn hour12_of(s: Seq<u8>) -> int {
    if s.len() == 10 {
        dv(s[0])
    } else {
        10 * dv(s[0]) + dv(s[1])
    }
}

/// The minute field.
pub open spec fn minute_of(s: Seq<u8>) -> int {
    if s.len() == 10 {
        10 * dv(s[2]) + dv(s[3])
    } else {
        10 * dv(s[3]) + dv(s[4])
    }
}

/// The second field.
pub open spec fn second_of(s: Seq<u8>) -> int {
    if s.len() == 10 {
        10 * dv(s[5]) + dv(s[6])
    } else {
        10 * dv(s[6]) + dv(s[7])
    }
}

/// The meridiem marker is `PM`.
pub open spec fn is_pm(s: Seq<u8>) -> bool {
    if s.len() == 10 {
        s[8] == 80
    } else {
        s[9] == 80
    }
}

/// A well-formed 12-hour time string: right shape, hour in `1..=12`, minute
/// and second in `0..=59`.
pub open spec fn valid_time(s: Seq<u8>) -> bool {
    time_shape_ok(s) && 1 <= hour12_of(s) <= 12 && minute_of(s) <= 59 && second_of(s) <= 59
}

/// The hour on the 24-hour clock: `12 AM` is hour 0, `12 PM` is hour 12.
pub open spec fn hour24_of(s: Seq<u8>) -> int {
    if hour12_of(s) == 12 {
        if is_pm(s) {
            12
        } else {
            0
        }
    } else {
        if is_pm(s) {
            hour12_of(s) + 12
        } else {
            hour12_of(s)
        }
    }
}

/// The second of the day a well-formed time string denotes.
pub open spec fn time_seconds(s: Seq<u8>) -> int {
    3600 * hour24_of(s) + 60 * minute_of(s) + second_of(s)
}

/// Parses a 12-hour time-of-day string (`6:32:00 AM` style) into the second
/// of the day; `None` exactly on malformed input.
pub fn parse_time_12h(s: &Vec<u8>) -> (r: Option<u32>)
    ensures
        r is Some <==> valid_time(s@),
        r is Some ==> r->0 == time_seconds(s@) && r->0 < 86400,
{
    let n = s.len();
    let h12: u32;
    let minute: u32;
    let second: u32;
    let pm: bool;
    if n == 10 {
        if !(digit(s[0]) && s[1] == 58 && digit(s[2]) && digit(s[3]) && s[4] == 58 && digit(s[5])
            && digit(s[6]) && s[7] == 32 && (s[8] == 65 || s[8] == 80) && s[9] == 77) {
            return None;
        }
        h12 = (s[0] - 48) as u32;
        minute = 10 * ((s[2] - 48) as u32) + ((s[3] - 48) as u32);
        second = 10 * ((s[5] - 48) as u32) + ((s[6] - 48) as u32);
        pm = s[8] == 80;
    } else if n == 11 {
        if !(digit(s[0]) && digit(s[1]) && s[2] == 58 && digit(s[3]) && digit(s[4]) && s[5] == 58
            && digit(s[6]) && digit(s[7]) && s[8] == 32 && (s[9] == 65 || s[9] == 80) && s[10]
            == 77) {
            return None;
        }
        h12 = 10 * ((s[0] - 48) as u32) + ((s[1] - 48) as u32);
        minute = 10 * ((s[3] - 48) as u32) + ((s[4] - 48) as u32);
        second = 10 * ((s[6] - 48) as u32) + ((s[7] - 48) as u32);
        pm = s[9] == 80;
    } else {
        return None;
    }
    if h12 < 1 || h12 > 12 {
        return None;
    }
    if minute > 59 {
        return None;
    }
    if second > 59 {
        return None;
    }
    let h24: u32 = if h12 == 12 {
        if pm {
            12
        } else {
            0
        }
    } else {
        if pm {
            h12 + 12
        } else {
            h12
        }
    };
    Some(3600 * h24 + 60 * minute + second)
}

/// Relies on chrono (`Local::now`, `DateTime::timestamp`): the current
/// instant in unix seconds. Chrono confines dates to years of magnitude below
/// 262144, so the timestamp magnitude stays below 10^13.
#[verifier::external_body]
fn now_unix_seconds() -> (r: i64)
    ensures
        -10_000_000_000_000 <= r <= 10_000_000_000_000,
{
    chrono::Local::now().timestamp()
}

/// Relies on chrono (`Local::now`, `NaiveDate::and_hms_opt`,
/// `NaiveDateTime::and_utc`): today's local calendar date read as a UTC
/// midnight instant, in unix seconds; same magnitude bound as above.
#[verifier::external_body]
fn today_utc_midnight_seconds() -> (r: i64)
    ensures
        -10_000_000_000_000 <= r <= 10_000_000_000_000,
{
    let date = chrono::Local::now().date_naive();
    match date.and_hms_opt(0, 0, 0) {
        Some(midnight) => midnight.and_utc().timestamp(),
        None => 0,
    }
}

/// Resolves the sun state from the two event strings of the solar source,
/// anchored to the UTC midnight instant `day_start` and classified against
/// the reference instant `now`: the event strings are read as UTC wall-clock
/// times of that day (mirroring how the upstream service reports them).
/// Fails with `ParseError` exactly when either string is malformed.
pub fn resolve_from_parts(sunrise: &Vec<u8>, sunset: &Vec<u8>, day_start: i64, now: i64) -> (r:
    Result<SunState, Error>)
    requires
        -10_000_000_000_000 <= day_start <= 10_000_000_000_000,
    ensures
        r is Ok <==> valid_time(sunrise@) && valid_time(sunset@),
        r is Ok ==> r->Ok_0 == (if sun_is_up(
            day_start + time_seconds(sunrise@),
            day_start + time_seconds(sunset@),
            now as int,
        ) {
            SunState::Up
        } else {
            SunState::Down
        }),
        r is Err ==> r->Err_0 == Error::ParseError,
{
    let rise = match parse_time_12h(sunrise) {
        Some(v) => v,
        None => {
            return Err(Error::ParseError);
        },
    };
    let set = match parse_time_12h(sunset) {
        Some(v) => v,
        None => {
            return Err(Error::ParseError);
        },
    };
    Ok(classify(day_start + rise as i64, day_start + set as i64, now))
}

/// Resolves the current sun state from the two event strings, anchored to
/// today's date and classified against the current instant. Succeeds exactly
/// when both strings are well-formed; which state comes back depends on the
/// clock, so `resolve_from_parts` carries the exact classification contract.
pub fn resolve_events(sunrise: &Vec<u8>, sunset: &Vec<u8>) -> (r: Result<SunState, Error>)
    ensures
        r is Ok <==> valid_time(sunrise@) && valid_time(sunset@),
        r is Err ==> r->Err_0 == Error::ParseError,
{
    let day_start = today_utc_midnight_seconds();
    let now = now_unix_seconds();
    resolve_from_parts(sunrise, sunset, day_start, now)
}

} // verus!
