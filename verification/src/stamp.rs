//! Moments, as a note records them, and calendar days, as a search names
//! them.
//!
//! The calendar and the clock are chrono's. A moment travels through the
//! library as plain numbers (`Stamp`), a day as year, month and day (`Day`);
//! each chrono call sits behind one function below whose contract says what
//! chrono is relied on for.
use vstd::prelude::*;
use chrono::{DateTime, Datelike, Days, FixedOffset, Local, Months, NaiveDate, SecondsFormat, TimeZone, Timelike};

verus! {

// ---------------------------------------------------------------------------
// Moments.
// ---------------------------------------------------------------------------

/// The first second chrono can represent: -262143-01-01T00:00:00 UTC.
pub const MIN_TIMESTAMP: i64 = -8334601228800;

/// The last second chrono can represent: +262142-12-31T23:59:59 UTC.
pub const MAX_TIMESTAMP: i64 = 8210266876799;

/// A moment: seconds since the Unix epoch, nanoseconds into that second (past
/// one billion during a leap second), and the offset from UTC, in seconds, of
/// the zone it was read in.
#[derive(Debug, Clone, Copy, PartialEq, Eq)]
pub struct Stamp {
    pub secs: i64,
    pub nanos: u32,
    pub offset: i32,
}

/// A moment chrono can represent, in an offset chrono accepts.
pub open spec fn valid_stamp(t: Stamp) -> bool {
    &&& MIN_TIMESTAMP <= t.secs <= MAX_TIMESTAMP
    &&& (t.nanos < 1_000_000_000 || (t.nanos < 2_000_000_000 && t.secs % 60 == 59))
    &&& -86400 < t.offset < 86400
}

/// Two stamps name the same instant, whatever zone each was read in.
pub open spec fn same_instant(a: Stamp, b: Stamp) -> bool {
    a.secs == b.secs && a.nanos == b.nanos
}

/// The wall-clock time of `t` falls in the years 0 to 9999, which RFC 3339
/// writes with four digits.
pub open spec fn four_digit_year(t: Stamp) -> bool {
    -62167219200 <= t.secs + t.offset < 253402300800
}

/// A moment that RFC 3339 text at whole seconds writes and reads back
/// unchanged: no fraction of a second, an offset of whole minutes, a
/// four-digit year.
pub open spec fn exact_in_rfc3339(t: Stamp) -> bool {
    &&& valid_stamp(t)
    &&& t.nanos == 0
    &&& t.offset % 60 == 0
    &&& four_digit_year(t)
}

/// `DateTime::to_rfc3339_opts(SecondsFormat::Secs, false)` of the moment
/// `secs`, `nanos` in the offset `offset`.
pub uninterp spec fn rfc3339_text(secs: int, nanos: int, offset: int) -> Seq<char>;

/// `DateTime::parse_from_rfc3339` of `s`: timestamp, nanoseconds and offset.
pub uninterp spec fn rfc3339_parsed(s: Seq<char>) -> Option<(int, int, int)>;

/// `DateTime::format(pattern)` of the moment `secs`, `nanos` in the offset
/// `offset`.
pub uninterp spec fn formatted(secs: int, nanos: int, offset: int, pattern: Seq<char>) -> Seq<char>;

/// A note's filename prefix: date, hour and minute.
pub const FILE_MINUTE: &'static str = "%Y-%m-%d-%H%M";

/// A date.
pub const DATE: &'static str = "%Y-%m-%d";

/// A date and the time of day to the minute.
pub const DATE_MINUTE: &'static str = "%Y-%m-%d %H:%M";

/// The time of day to the minute.
pub const CLOCK: &'static str = "%H:%M";

/// A day spelled out: `Friday 4 September 2026`.
pub const LONG_DAY: &'static str = "%A %-d %B %Y";

/// A month and its year: `September 2026`.
pub const MONTH_YEAR: &'static str = "%B %Y";

/// The patterns the library formats moments with.
pub open spec fn known_pattern(p: Seq<char>) -> bool {
    ||| p == FILE_MINUTE@
    ||| p == DATE@
    ||| p == DATE_MINUTE@
    ||| p == CLOCK@
    ||| p == LONG_DAY@
    ||| p == MONTH_YEAR@
}

/// Calls `chrono::Local::now`. Which moment comes back depends on the clock;
/// all that is promised is that chrono can represent it.
#[verifier::external_body]
pub(crate) fn now_local() -> (r: Stamp)
    ensures
        valid_stamp(r),
{
    let t = Local::now();
    Stamp { secs: t.timestamp(), nanos: t.timestamp_subsec_nanos(), offset: t.offset().local_minus_utc() }
}

/// Calls `DateTime::<Local>::with_nanosecond`. When chrono gives an answer it
/// is the same second with the nanoseconds replaced; chrono gives none where
/// the wall-clock time is ambiguous in the machine's zone, which this leaves
/// open.
#[verifier::external_body]
pub(crate) fn local_with_nanosecond(t: Stamp, nano: u32) -> (r: Option<Stamp>)
    requires
        valid_stamp(t),
        nano < 1_000_000_000,
    ensures
        r matches Some(s) ==> s.secs == t.secs && s.nanos == nano && valid_stamp(s),
{
    let d = Local.timestamp_opt(t.secs, t.nanos).single()?.with_nanosecond(nano)?;
    Some(Stamp { secs: d.timestamp(), nanos: d.timestamp_subsec_nanos(), offset: d.offset().local_minus_utc() })
}

/// Calls `DateTime::with_timezone(&Local)`: the same instant, in the offset
/// the machine's zone has at it. Which offset that is depends on the machine
/// and is left open.
#[verifier::external_body]
pub(crate) fn to_local(t: Stamp) -> (r: Stamp)
    requires
        valid_stamp(t),
    ensures
        same_instant(r, t),
        valid_stamp(r),
{
    match DateTime::from_timestamp(t.secs, t.nanos) {
        Some(u) => {
            let d = u.with_timezone(&Local);
            Stamp { secs: d.timestamp(), nanos: d.timestamp_subsec_nanos(), offset: d.offset().local_minus_utc() }
        },
        None => t,
    }
}

/// Calls `DateTime::to_rfc3339_opts(SecondsFormat::Secs, false)` on the
/// moment in its own offset. The text is named. It is made of digits, signs,
/// `T` and colons, so it holds no newline; and, as chrono's writer and
/// `parse_from_rfc3339` show, a moment with no leap nanoseconds, an offset of
/// whole minutes and a four-digit year reads back as the same second and
/// offset with the fraction dropped.
#[verifier::external_body]
pub(crate) fn rfc3339(t: Stamp) -> (r: String)
    requires
        valid_stamp(t),
    ensures
        r@ == rfc3339_text(t.secs as int, t.nanos as int, t.offset as int),
        !r@.contains('\n'),
        t.nanos < 1_000_000_000 && t.offset % 60 == 0 && four_digit_year(t) ==> rfc3339_parsed(r@)
            == Some((t.secs as int, 0int, t.offset as int)),
{
    match (FixedOffset::east_opt(t.offset), DateTime::from_timestamp(t.secs, t.nanos)) {
        (Some(off), Some(u)) => u.with_timezone(&off).to_rfc3339_opts(SecondsFormat::Secs, false),
        _ => String::new(),
    }
}

/// Calls `DateTime::parse_from_rfc3339`; what it accepts and yields is named.
/// Whatever it yields chrono can represent.
#[verifier::external_body]
pub(crate) fn parse_rfc3339(s: &str) -> (r: Option<(i64, u32, i32)>)
    ensures
        r matches Some(p) ==> rfc3339_parsed(s@) == Some((p.0 as int, p.1 as int, p.2 as int))
            && valid_stamp((Stamp { secs: p.0, nanos: p.1, offset: p.2 })),
        r is None ==> rfc3339_parsed(s@) is None,
{
    match DateTime::parse_from_rfc3339(s) {
        Ok(d) => Some((d.timestamp(), d.timestamp_subsec_nanos(), d.offset().local_minus_utc())),
        Err(_) => None,
    }
}

/// Calls `DateTime::format` with one of the library's patterns, on the
/// moment in its own offset; the text is named.
#[verifier::external_body]
pub(crate) fn format_stamp(t: Stamp, pattern: &str) -> (r: String)
    requires
        valid_stamp(t),
        known_pattern(pattern@),
    ensures
        r@ == formatted(t.secs as int, t.nanos as int, t.offset as int, pattern@),
{
    match (FixedOffset::east_opt(t.offset), DateTime::from_timestamp(t.secs, t.nanos)) {
        (Some(off), Some(u)) => u.with_timezone(&off).format(pattern).to_string(),
        _ => String::new(),
    }
}

/// `Datelike::iso_week` of the moment in the offset `offset`: ISO week number
/// and ISO year.
pub uninterp spec fn iso_week_of(secs: int, nanos: int, offset: int) -> (int, int);

/// Calls `Datelike::iso_week` on the moment in its own offset, and reads its
/// week and year; they are named. Its documentation gives weeks from 1 to 53.
/// ISO years differ from calendar years in the last days of December, which
/// is the reason for asking chrono.
#[verifier::external_body]
pub(crate) fn iso_week(t: Stamp) -> (r: (u32, i32))
    requires
        valid_stamp(t),
    ensures
        (r.0 as int, r.1 as int) == iso_week_of(t.secs as int, t.nanos as int, t.offset as int),
        1 <= r.0 <= 53,
{
    match (FixedOffset::east_opt(t.offset), DateTime::from_timestamp(t.secs, t.nanos)) {
        (Some(off), Some(u)) => {
            let w = u.with_timezone(&off).iso_week();
            (w.week(), w.year())
        },
        _ => (1, 0),
    }
}

/// The moment, read back from what a note writes for it: the instant of an
/// RFC 3339 text, in the machine's zone.
pub fn parse_time(s: &str) -> (r: Option<Stamp>)
    ensures
        r is None <==> rfc3339_parsed(s@) is None,
        r matches Some(t) ==> valid_stamp(t) && rfc3339_parsed(s@) == Some(
            (t.secs as int, t.nanos as int, rfc3339_parsed(s@).unwrap().2),
        ),
{
    match parse_rfc3339(s) {
        Some((secs, nanos, offset)) => Some(to_local(Stamp { secs, nanos, offset })),
        None => None,
    }
}

/// The current moment, in the machine's zone.
pub fn now() -> (r: Stamp)
    ensures
        valid_stamp(r),
{
    now_local()
}

/// A moment without its fraction of a second, which the note format does not
/// record. Where chrono finds the wall-clock time ambiguous the moment is kept
/// as it is.
pub fn truncate(t: Stamp) -> (r: Stamp)
    requires
        valid_stamp(t),
    ensures
        valid_stamp(r),
        r.secs == t.secs,
        r.nanos == 0 || r == t,
{
    match local_with_nanosecond(t, 0) {
        Some(s) => s,
        None => t,
    }
}

// ---------------------------------------------------------------------------
// Days.
// ---------------------------------------------------------------------------

/// The earliest year chrono's dates reach.
pub const MIN_YEAR: i32 = -262143;

/// The latest year chrono's dates reach.
pub const MAX_YEAR: i32 = 262142;

/// A calendar day in the proleptic Gregorian calendar.
#[derive(Debug, Clone, Copy, PartialEq, Eq)]
pub struct Day {
    pub year: i32,
    pub month: u32,
    pub day: u32,
}

pub open spec fn leap_year(y: int) -> bool {
    y % 4 == 0 && (y % 100 != 0 || y % 400 == 0)
}

pub open spec fn days_in_month(y: int, m: int) -> int {
    if m == 2 {
        if leap_year(y) {
            29
        } else {
            28
        }
    } else if m == 4 || m == 6 || m == 9 || m == 11 {
        30
    } else {
        31
    }
}

/// A day that exists and that chrono can represent.
pub open spec fn valid_date(y: int, m: int, d: int) -> bool {
    &&& MIN_YEAR <= y <= MAX_YEAR
    &&& 1 <= m <= 12
    &&& 1 <= d <= days_in_month(y, m)
}

pub open spec fn valid_day(d: Day) -> bool {
    valid_date(d.year as int, d.month as int, d.day as int)
}

/// `NaiveDate::from_ymd_opt`.
pub open spec fn date_opt(y: int, m: int, d: int) -> Option<Day> {
    if valid_date(y, m, d) {
        Some(Day { year: y as i32, month: m as u32, day: d as u32 })
    } else {
        None
    }
}

/// Days from 1970-01-01 to the given day.
pub open spec fn days_from_civil(y: int, m: int, d: int) -> int {
    let y1 = if m <= 2 { y - 1 } else { y };
    let era = y1 / 400;
    let yoe = y1 - era * 400;
    let mp = if m > 2 { m - 3 } else { m + 9 };
    let doy = (153 * mp + 2) / 5 + d - 1;
    let doe = yoe * 365 + yoe / 4 - yoe / 100 + doy;
    era * 146097 + doe - 719468
}

pub open spec fn day_number(d: Day) -> int {
    days_from_civil(d.year as int, d.month as int, d.day as int)
}

/// The day `z` days after 1970-01-01: the inverse of `days_from_civil`.
pub open spec fn civil_from_days(z0: int) -> Day {
    let z = z0 + 719468;
    let era = z / 146097;
    let doe = z - era * 146097;
    let yoe = (doe - doe / 1460 + doe / 36524 - doe / 146096) / 365;
    let doy = doe - (365 * yoe + yoe / 4 - yoe / 100);
    let mp = (5 * doy + 2) / 153;
    let d = doy - (153 * mp + 2) / 5 + 1;
    let m = if mp < 10 { mp + 3 } else { mp - 9 };
    let y = yoe + era * 400 + if m <= 2 { 1int } else { 0int };
    Day { year: y as i32, month: m as u32, day: d as u32 }
}

pub open spec fn first_day() -> Day {
    Day { year: MIN_YEAR, month: 1, day: 1 }
}

/// The day before `d`, if chrono reaches it.
pub open spec fn day_before(d: Day) -> Option<Day> {
    if d.day > 1 {
        Some(Day { year: d.year, month: d.month, day: (d.day - 1) as u32 })
    } else if d.month > 1 {
        Some(
            Day {
                year: d.year,
                month: (d.month - 1) as u32,
                day: days_in_month(d.year as int, d.month - 1) as u32,
            },
        )
    } else if d.year > MIN_YEAR {
        Some(Day { year: (d.year - 1) as i32, month: 12, day: 31 })
    } else {
        None
    }
}

/// `n` days before `d`: `NaiveDate::checked_sub_days`.
pub open spec fn days_back(d: Day, n: int) -> Option<Day> {
    if n > i32::MAX || day_number(d) - n < day_number(first_day()) {
        None
    } else {
        Some(civil_from_days(day_number(d) - n))
    }
}

/// `n` calendar months before `d`, keeping the day of the month where the
/// month has it and taking the month's last day where it does not:
/// `NaiveDate::checked_sub_months`.
pub open spec fn months_back(d: Day, n: int) -> Option<Day> {
    if n == 0 {
        Some(d)
    } else if n > i32::MAX {
        None
    } else {
        let total = d.year * 12 + d.month - 1 - n;
        let y = total / 12;
        let m = total % 12 + 1;
        let dd = if d.day > days_in_month(y, m) { days_in_month(y, m) } else { d.day as int };
        date_opt(y, m, dd)
    }
}

/// Calls `Local::now().date_naive()`: today, as the machine's clock and zone
/// have it.
#[verifier::external_body]
pub(crate) fn today() -> (r: Day)
    ensures
        valid_day(r),
{
    let d = Local::now().date_naive();
    Day { year: d.year(), month: d.month(), day: d.day() }
}

/// Calls `NaiveDate::from_ymd_opt`: the day if it exists in chrono's range.
#[verifier::external_body]
pub(crate) fn ymd(y: i32, m: u32, d: u32) -> (r: Option<Day>)
    ensures
        r == date_opt(y as int, m as int, d as int),
{
    match NaiveDate::from_ymd_opt(y, m, d) {
        Some(n) => Some(Day { year: n.year(), month: n.month(), day: n.day() }),
        None => None,
    }
}

/// Calls `NaiveDate::pred_opt`.
#[verifier::external_body]
pub(crate) fn pred(d: Day) -> (r: Option<Day>)
    requires
        valid_day(d),
    ensures
        r == day_before(d),
{
    let p = NaiveDate::from_ymd_opt(d.year, d.month, d.day)?.pred_opt()?;
    Some(Day { year: p.year(), month: p.month(), day: p.day() })
}

/// Calls `NaiveDate::checked_sub_days`.
#[verifier::external_body]
pub(crate) fn sub_days(d: Day, n: u64) -> (r: Option<Day>)
    requires
        valid_day(d),
    ensures
        r == days_back(d, n as int),
{
    let x = NaiveDate::from_ymd_opt(d.year, d.month, d.day)?.checked_sub_days(Days::new(n))?;
    Some(Day { year: x.year(), month: x.month(), day: x.day() })
}

/// Calls `NaiveDate::checked_sub_months`.
#[verifier::external_body]
pub(crate) fn sub_months(d: Day, n: u32) -> (r: Option<Day>)
    requires
        valid_day(d),
    ensures
        r == months_back(d, n as int),
{
    let x = NaiveDate::from_ymd_opt(d.year, d.month, d.day)?.checked_sub_months(Months::new(n))?;
    Some(Day { year: x.year(), month: x.month(), day: x.day() })
}

} // verus!
