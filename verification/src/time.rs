//! Local calendar timestamps as plain values.
//!
//! A `TimeInfo` carries the local calendar fields of one instant together
//! with its epoch second.  Conversions between epoch seconds and local
//! calendar fields depend on the machine's time zone and are delegated to
//! chrono behind trusted wrappers; everything derived from the fields
//! (leap years, day of year, weekday) is computed and verified here.

use vstd::prelude::*;

verus! {

/// Upper bound on calendar years the library handles; chrono's own range
/// ends shortly below it.
pub const YEAR_LIMIT: i32 = 262200;

pub open spec fn is_leap_year(y: int) -> bool {
    y % 4 == 0 && (y % 100 != 0 || y % 400 == 0)
}

pub open spec fn spec_days_in_month(y: int, m0: int) -> int {
    if m0 == 1 {
        if is_leap_year(y) {
            29
        } else {
            28
        }
    } else if m0 == 3 || m0 == 5 || m0 == 8 || m0 == 10 {
        30
    } else {
        31
    }
}

pub open spec fn spec_year_days(y: int) -> int {
    if is_leap_year(y) {
        366
    } else {
        365
    }
}

/// Days of year `y` that precede month `m0` (months counted from 0).
pub open spec fn spec_days_before_month(y: int, m0: int) -> int
    decreases m0,
{
    if m0 <= 0 {
        0
    } else {
        spec_days_before_month(y, m0 - 1) + spec_days_in_month(y, m0 - 1)
    }
}

/// Day of year counted from 0, for day `d` (counted from 1) of month `m0`.
pub open spec fn spec_ordinal0(y: int, m0: int, d: int) -> int {
    spec_days_before_month(y, m0) + d - 1
}

/// Leap years `z` with `0 <= z < y` (year 0 is a leap year).
pub open spec fn spec_leap_years_before(y: int) -> int {
    (y + 3) / 4 - (y + 99) / 100 + (y + 399) / 400
}

/// Days from the proleptic Gregorian date 0000-01-01 to the given date.
pub open spec fn spec_day_number(y: int, m0: int, d: int) -> int {
    365 * y + spec_leap_years_before(y) + spec_ordinal0(y, m0, d)
}

/// Weekday of a date, Monday = 0 .. Sunday = 6.
pub open spec fn spec_weekday(y: int, m0: int, d: int) -> int {
    (spec_day_number(y, m0, d) + 5) % 7
}

proof fn lemma_days_before_month_mono(y: int, a: int, b: int)
    requires
        0 <= a <= b <= 12,
    ensures
        spec_days_before_month(y, a) <= spec_days_before_month(y, b),
    decreases b,
{
    if a < b {
        lemma_days_before_month_mono(y, a, b - 1);
    }
}

proof fn lemma_days_before_month_year(y: int)
    ensures
        spec_days_before_month(y, 12) == spec_year_days(y),
{
    assert(spec_days_before_month(y, 12) == spec_year_days(y)) by {
        reveal_with_fuel(spec_days_before_month, 13);
    }
}

/// A day of a month always lies before the end of its year.
pub proof fn lemma_ordinal0_in_year(y: int, m0: int, d: int)
    requires
        0 <= m0 < 12,
        1 <= d <= spec_days_in_month(y, m0),
    ensures
        0 <= spec_ordinal0(y, m0, d) < spec_year_days(y),
{
    lemma_days_before_month_mono(y, 0, m0);
    lemma_days_before_month_mono(y, m0 + 1, 12);
    lemma_days_before_month_year(y);
}

pub fn is_leap(year: i32) -> (r: bool)
    requires
        year >= 0,
    ensures
        r == is_leap_year(year as int),
{
    year % 4 == 0 && (year % 100 != 0 || year % 400 == 0)
}

pub fn days_in_month(year: i32, month0: u8) -> (r: u8)
    requires
        year >= 0,
        month0 < 12,
    ensures
        r == spec_days_in_month(year as int, month0 as int),
{
    if month0 == 1 {
        if is_leap(year) {
            29
        } else {
            28
        }
    } else if month0 == 3 || month0 == 5 || month0 == 8 || month0 == 10 {
        30
    } else {
        31
    }
}

pub fn year_days(year: i32) -> (r: u16)
    requires
        year >= 0,
    ensures
        r == spec_year_days(year as int),
{
    if is_leap(year) {
        366
    } else {
        365
    }
}

/// The local calendar fields of one instant, with the epoch second it
/// corresponds to.  Ordering commands in time goes by `epoch`; the buckets
/// of the statistics go by the calendar fields.
#[derive(Clone, Copy, Debug, PartialEq, Eq, Structural)]
pub struct TimeInfo {
    /// Seconds since the Unix epoch (an absolute instant).
    pub epoch: i64,
    /// Calendar year in the local time zone.
    pub year: i32,
    /// Month of the year, counted from 0.
    pub month0: u8,
    /// Day of the month, counted from 1.
    pub day: u8,
    /// Hour of the day, 0 to 23.
    pub hour: u8,
    /// Minute, 0 to 59.
    pub minute: u8,
    /// Second, 0 to 59.
    pub second: u8,
}

impl TimeInfo {
    /// The calendar fields name a real date and time of day.
    pub open spec fn wf(self) -> bool {
        &&& 0 <= self.year <= YEAR_LIMIT
        &&& 0 <= self.month0 < 12
        &&& 1 <= self.day <= spec_days_in_month(self.year as int, self.month0 as int)
        &&& self.hour < 24
        &&& self.minute < 60
        &&& self.second < 60
    }

    pub open spec fn candidate(
        epoch: i64,
        year: i32,
        month0: u8,
        day: u8,
        hour: u8,
        minute: u8,
        second: u8,
    ) -> TimeInfo {
        TimeInfo { epoch, year, month0, day, hour, minute, second }
    }

    /// Builds a `TimeInfo` after checking that the fields name a real date
    /// and time of day; rejects them otherwise.
    pub fn new(
        epoch: i64,
        year: i32,
        month0: u8,
        day: u8,
        hour: u8,
        minute: u8,
        second: u8,
    ) -> (r: Option<TimeInfo>)
        ensures
            r matches Some(t) ==> t == Self::candidate(epoch, year, month0, day, hour, minute, second),
            r is Some <==> Self::candidate(epoch, year, month0, day, hour, minute, second).wf(),
    {
        if 0 <= year && year <= YEAR_LIMIT && month0 < 12 && 1 <= day
            && day <= days_in_month(year, month0) && hour < 24 && minute < 60 && second < 60 {
            Some(TimeInfo { epoch, year, month0, day, hour, minute, second })
        } else {
            None
        }
    }

    /// Day of the year this instant falls on, counted from 0.
    pub fn ordinal0(&self) -> (r: u16)
        requires
            self.wf(),
        ensures
            r == spec_ordinal0(self.year as int, self.month0 as int, self.day as int),
            r < spec_year_days(self.year as int),
    {
        let mut acc: u16 = 0;
        let mut m: u8 = 0;
        while m < self.month0
            invariant
                self.wf(),
                m <= self.month0,
                acc == spec_days_before_month(self.year as int, m as int),
                acc <= 31 * (m as u16),
            decreases self.month0 - m,
        {
            acc = acc + days_in_month(self.year, m) as u16;
            m = m + 1;
        }
        proof {
            lemma_ordinal0_in_year(self.year as int, self.month0 as int, self.day as int);
        }
        acc + self.day as u16 - 1
    }

    /// Weekday of this instant's date, Monday = 0 .. Sunday = 6.
    pub fn weekday(&self) -> (r: u8)
        requires
            self.wf(),
        ensures
            r == spec_weekday(self.year as int, self.month0 as int, self.day as int),
            r < 7,
    {
        let y = self.year as u64;
        let a: u64 = (y + 3) / 4;
        let b: u64 = (y + 99) / 100;
        let c: u64 = (y + 399) / 400;
        let ord = self.ordinal0() as u64;
        let s: u64 = 365 * y + a + c + ord;
        let r: u64 = (s + 5 + 6 * b) % 7;
        proof {
            let dn = spec_day_number(self.year as int, self.month0 as int, self.day as int);
            assert(dn + 5 == (s + 5 + 6 * b) - 7 * b);
            vstd::arithmetic::div_mod::lemma_mod_multiples_vanish(
                b as int,
                dn + 5,
                7,
            );
        }
        r as u8
    }
}

/// A real instant's bucket indices are in range: hour below 24, weekday
/// below 7, day of year below 366, month below 12.
pub proof fn lemma_bucket_indices(t: TimeInfo)
    requires
        t.wf(),
    ensures
        0 <= t.hour < 24,
        0 <= t.month0 < 12,
        0 <= spec_weekday(t.year as int, t.month0 as int, t.day as int) < 7,
        0 <= spec_ordinal0(t.year as int, t.month0 as int, t.day as int) < 366,
{
    lemma_ordinal0_in_year(t.year as int, t.month0 as int, t.day as int);
    vstd::arithmetic::div_mod::lemma_mod_bound(
        spec_day_number(t.year as int, t.month0 as int, t.day as int) + 5,
        7,
    );
}

/// The calendar day before `(y, o)`, as year and day-of-year.
pub open spec fn spec_prev_day(y: int, o: int) -> (int, int) {
    if o > 0 {
        (y, o - 1)
    } else {
        (y - 1, spec_year_days(y - 1) - 1)
    }
}

/// The calendar day after `(y, o)`, as year and day-of-year.
pub open spec fn spec_next_day(y: int, o: int) -> (int, int) {
    if o + 1 < spec_year_days(y) {
        (y, o + 1)
    } else {
        (y + 1, 0)
    }
}

/// The day an instant is accounted to, under the late-night convention:
/// when the current hour is before 6 the day runs 18 hours ahead, so a
/// late-night session still counts to the previous calendar day; otherwise
/// the day starts at 6 in the morning.
pub open spec fn spec_shifted_day(t: TimeInfo, now_early: bool) -> (int, int) {
    let y = t.year as int;
    let o = spec_ordinal0(y, t.month0 as int, t.day as int);
    if now_early {
        if t.hour < 6 {
            (y, o)
        } else {
            spec_next_day(y, o)
        }
    } else {
        if t.hour >= 6 {
            (y, o)
        } else {
            spec_prev_day(y, o)
        }
    }
}

/// Whether an instant counts as "today" relative to `now`: its shifted
/// day-of-year matches the current one.
pub open spec fn spec_is_today(t: TimeInfo, now: TimeInfo) -> bool {
    spec_shifted_day(t, now.hour < 6).1 == spec_ordinal0(
        now.year as int,
        now.month0 as int,
        now.day as int,
    )
}

/// Decides `spec_is_today` for real instants.
pub fn is_today(t: &TimeInfo, now: &TimeInfo) -> (r: bool)
    requires
        t.wf(),
        now.wf(),
    ensures
        r == spec_is_today(*t, *now),
{
    let o = t.ordinal0();
    let shifted: u16 = if now.hour < 6 {
        if t.hour < 6 {
            o
        } else {
            if o + 1 < year_days(t.year) {
                o + 1
            } else {
                0
            }
        }
    } else {
        if t.hour >= 6 {
            o
        } else {
            if o > 0 {
                o - 1
            } else {
                if t.year >= 1 {
                    year_days(t.year - 1) - 1
                } else {
                    proof {
                        assert(spec_year_days(-1) == 365);
                    }
                    364
                }
            }
        }
    };
    let now_o = now.ordinal0();
    shifted == now_o
}

/// Relies on chrono's `TimeZone::timestamp_opt` on `Local`: it returns one
/// local datetime for every epoch second inside chrono's range (it is
/// `None` only past that range, which ends beyond year 200000), the
/// datetime's `timestamp()` is the given second, and its
/// `Datelike`/`Timelike` fields are the documented in-range calendar fields
/// of a real date in the machine's local time zone.
#[verifier::external_body]
pub fn local_time_of_epoch(secs: u64) -> (r: Option<TimeInfo>)
    ensures
        r matches Some(t) ==> t.wf() && secs <= i64::MAX && t.epoch == secs as i64,
        secs < 200_000_000_000 ==> r is Some,
{
    let s = match i64::try_from(secs) {
        Ok(s) => s,
        Err(_) => return None,
    };
    let dt = chrono::TimeZone::timestamp_opt(&chrono::Local, s, 0).single()?;
    Some(TimeInfo {
        epoch: s,
        year: chrono::Datelike::year(&dt),
        month0: chrono::Datelike::month0(&dt) as u8,
        day: chrono::Datelike::day(&dt) as u8,
        hour: chrono::Timelike::hour(&dt) as u8,
        minute: chrono::Timelike::minute(&dt) as u8,
        second: chrono::Timelike::second(&dt) as u8,
    })
}

/// Relies on chrono's `TimeZone::from_local_datetime` on `Local` (together
/// with `NaiveDate::from_ymd_opt` and `NaiveDate::and_hms_opt`): when the
/// given wall-clock fields name exactly one instant in the machine's local
/// time zone, that instant's epoch second comes back.  Which instant that
/// is depends on the time zone, so nothing is stated of the value.
#[verifier::external_body]
pub fn epoch_of_local_fields(
    year: i32,
    month0: u8,
    day: u8,
    hour: u8,
    minute: u8,
    second: u8,
) -> (r: Option<i64>) {
    let date = match chrono::NaiveDate::from_ymd_opt(year, month0 as u32 + 1, day as u32) {
        Some(d) => d,
        None => return None,
    };
    let ndt = match date.and_hms_opt(hour as u32, minute as u32, second as u32) {
        Some(t) => t,
        None => return None,
    };
    match chrono::TimeZone::from_local_datetime(&chrono::Local, &ndt).single() {
        Some(dt) => Some(dt.timestamp()),
        None => None,
    }
}

} // verus!
