//! Calendar days of the deployment's time zone as unix-second ranges.
use vstd::prelude::*;
use chrono::Datelike;
use chrono::TimeZone;
use crate::log_queries::CALENDAR_MAX_UNIX_SECONDS;
use crate::text::{chars_of, owned, push_text};

verus! {

/// One local calendar day: `YYYY-MM-DD`, its zone, and the unix seconds of
/// its first instant and of the next day's first instant.
#[derive(Clone, Debug, PartialEq, Eq)]
pub struct CalendarDay {
    pub day: String,
    pub timezone: String,
    pub start_time: u64,
    pub end_time: u64,
}

impl CalendarDay {
    /// The day's length in seconds (zero if the bounds are inverted).
    pub fn duration_seconds(&self) -> (r: u64)
        ensures
            r == if self.end_time >= self.start_time {
                (self.end_time - self.start_time) as u64
            } else {
                0
            },
    {
        self.end_time.saturating_sub(self.start_time)
    }
}

/// Consecutive calendar days and the unix-second range they cover.
#[derive(Clone, Debug, PartialEq, Eq)]
pub struct CalendarRange {
    pub timezone: String,
    pub start_time: u64,
    pub end_time: u64,
    pub days: Vec<CalendarDay>,
}

/// Why a calendar question could not be answered.
#[derive(Clone, Debug, PartialEq, Eq)]
pub enum CalendarError {
    InvalidTimezone(String),
    InvalidDay(String),
    InvalidBoundary { day: String, timezone: String },
    TimestampOutOfRange,
    EmptyRange,
}

impl CalendarError {
    pub open spec fn message_spec(&self) -> Seq<char> {
        match self {
            CalendarError::InvalidTimezone(z) => "invalid IANA timezone: "@ + z@,
            CalendarError::InvalidDay(d) => "invalid calendar day: "@ + d@ + "; expected YYYY-MM-DD"@,
            CalendarError::InvalidBoundary { day, timezone } => "calendar boundary is ambiguous or nonexistent for "@
                + day@ + " in "@ + timezone@,
            CalendarError::TimestampOutOfRange => "calendar timestamp is outside the supported Unix range"@,
            CalendarError::EmptyRange => "calendar range must contain at least one day"@,
        }
    }

    /// The error as shown to callers.
    pub fn message(&self) -> (r: String)
        ensures
            r@ == self.message_spec(),
    {
        match self {
            CalendarError::InvalidTimezone(z) => {
                let mut m = owned("invalid IANA timezone: ");
                push_text(&mut m, z.as_str());
                m
            },
            CalendarError::InvalidDay(d) => {
                let mut m = owned("invalid calendar day: ");
                push_text(&mut m, d.as_str());
                push_text(&mut m, "; expected YYYY-MM-DD");
                m
            },
            CalendarError::InvalidBoundary { day, timezone } => {
                let mut m = owned("calendar boundary is ambiguous or nonexistent for ");
                push_text(&mut m, day.as_str());
                push_text(&mut m, " in ");
                push_text(&mut m, timezone.as_str());
                m
            },
            CalendarError::TimestampOutOfRange => owned(
                "calendar timestamp is outside the supported Unix range",
            ),
            CalendarError::EmptyRange => owned("calendar range must contain at least one day"),
        }
    }
}

/// `c` is an ASCII digit.
pub open spec fn is_digit(c: char) -> bool {
    '0' <= c && c <= '9'
}

/// The shape `YYYY-MM-DD`: ten characters, dashes at the fifth and eighth,
/// digits elsewhere.
pub open spec fn day_shaped(s: Seq<char>) -> bool {
    &&& s.len() == 10
    &&& s[4] == '-'
    &&& s[7] == '-'
    &&& forall|i: int| 0 <= i < 10 && i != 4 && i != 7 ==> is_digit(#[trigger] s[i])
}

/// Whether `day` has the shape `YYYY-MM-DD` (the calendar checks the date
/// itself separately).
pub fn is_day_shaped(day: &str) -> (r: bool)
    ensures
        r == day_shaped(day@),
{
    let c = chars_of(day);
    if c.len() != 10 || c[4] != '-' || c[7] != '-' {
        return false;
    }
    for i in 0..10usize
        invariant
            c@ == day@,
            c@.len() == 10,
            forall|j: int| 0 <= j < i && j != 4 && j != 7 ==> is_digit(#[trigger] c@[j]),
    {
        if i != 4 && i != 7 && !('0' <= c[i] && c[i] <= '9') {
            return false;
        }
    }
    true
}

/// A civil date: year, month, day.
pub type CivilDate = (i32, u32, u32);

/// Whether chrono-tz knows the IANA zone `name`.
pub uninterp spec fn timezone_known(name: Seq<char>) -> bool;

/// The date chrono reads from `day` with the format `%Y-%m-%d`.
pub uninterp spec fn civil_date(day: Seq<char>) -> Option<CivilDate>;

/// The day after `date`.
pub uninterp spec fn following_date(date: CivilDate) -> Option<CivilDate>;

/// `date` plus `days` days.
pub uninterp spec fn date_plus_days(date: CivilDate, days: i64) -> Option<CivilDate>;

/// `date` minus `days` days.
pub uninterp spec fn date_minus_days(date: CivilDate, days: i64) -> Option<CivilDate>;

/// `date` written as chrono writes dates (`YYYY-MM-DD`).
pub uninterp spec fn civil_date_text(date: CivilDate) -> Seq<char>;

/// The unix time of local midnight starting `date` in `zone`, when that
/// local time exists exactly once.
pub uninterp spec fn local_midnight(zone: Seq<char>, date: CivilDate) -> Option<i64>;

/// The local date in `zone` at unix time `unix`.
pub uninterp spec fn local_date(zone: Seq<char>, unix: i64) -> Option<CivilDate>;

/// chrono-tz: whether `name` parses as a `Tz` (an exact lookup of the zone
/// names; a zone's `Display` is the name it was looked up by).
#[verifier::external_body]
fn is_known_timezone(name: &str) -> (r: bool)
    ensures
        r == timezone_known(name@),
{
    name.parse::<chrono_tz::Tz>().is_ok()
}

/// chrono: `NaiveDate::parse_from_str(day, "%Y-%m-%d")`, as year, month,
/// day.
#[verifier::external_body]
fn parse_civil_date(day: &str) -> (r: Option<CivilDate>)
    ensures
        r == civil_date(day@),
{
    chrono::NaiveDate::parse_from_str(day, "%Y-%m-%d").ok().map(|d| (d.year(), d.month(), d.day()))
}

/// chrono: `NaiveDate::succ_opt` of the date.
#[verifier::external_body]
fn next_civil_date(date: CivilDate) -> (r: Option<CivilDate>)
    ensures
        r == following_date(date),
{
    chrono::NaiveDate::from_ymd_opt(date.0, date.1, date.2).and_then(|d| d.succ_opt()).map(
        |d| (d.year(), d.month(), d.day()),
    )
}

/// chrono: `NaiveDate::checked_add_signed` of `days` days.
#[verifier::external_body]
fn add_civil_days(date: CivilDate, days: i64) -> (r: Option<CivilDate>)
    ensures
        r == date_plus_days(date, days),
{
    chrono::NaiveDate::from_ymd_opt(date.0, date.1, date.2).and_then(
        |d| chrono::TimeDelta::try_days(days).and_then(|delta| d.checked_add_signed(delta)),
    ).map(|d| (d.year(), d.month(), d.day()))
}

/// chrono: `NaiveDate::checked_sub_signed` of `days` days.
#[verifier::external_body]
fn sub_civil_days(date: CivilDate, days: i64) -> (r: Option<CivilDate>)
    ensures
        r == date_minus_days(date, days),
{
    chrono::NaiveDate::from_ymd_opt(date.0, date.1, date.2).and_then(
        |d| chrono::TimeDelta::try_days(days).and_then(|delta| d.checked_sub_signed(delta)),
    ).map(|d| (d.year(), d.month(), d.day()))
}

/// chrono: the `Display` text of the date. A triple that is no valid date
/// gives the empty text; the callers only pass dates chrono produced.
#[verifier::external_body]
fn civil_date_string(date: CivilDate) -> (r: String)
    ensures
        r@ == civil_date_text(date),
{
    chrono::NaiveDate::from_ymd_opt(date.0, date.1, date.2).map(|d| d.to_string()).unwrap_or_default()
}

/// chrono-tz: `from_local_datetime` of local midnight on `date` in `zone`,
/// when it is unique, as a unix time.
#[verifier::external_body]
fn midnight_unix(zone: &str, date: CivilDate) -> (r: Option<i64>)
    ensures
        r == local_midnight(zone@, date),
{
    let tz = zone.parse::<chrono_tz::Tz>().ok()?;
    let midnight = chrono::NaiveDate::from_ymd_opt(date.0, date.1, date.2)?.and_hms_opt(0, 0, 0)?;
    tz.from_local_datetime(&midnight).single().map(|t| t.timestamp())
}

/// chrono-tz: the local date in `zone` at unix time `unix`. The time is
/// kept far enough inside chrono's range that adding any zone's offset stays
/// in it (`naive_local` panics past it).
#[verifier::external_body]
fn local_date_of(zone: &str, unix: i64) -> (r: Option<CivilDate>)
    requires
        0 <= unix <= CALENDAR_MAX_UNIX_SECONDS,
    ensures
        r == local_date(zone@, unix),
{
    let tz = zone.parse::<chrono_tz::Tz>().ok()?;
    let t = chrono::DateTime::<chrono::Utc>::from_timestamp(unix, 0)?.with_timezone(&tz).date_naive();
    Some((t.year(), t.month(), t.day()))
}

/// A calendar error as plain values: kind, day and zone where it has them.
pub open spec fn error_view(e: CalendarError) -> (u8, Seq<char>, Seq<char>) {
    match e {
        CalendarError::InvalidTimezone(z) => (0, Seq::empty(), z@),
        CalendarError::InvalidDay(d) => (1, d@, Seq::empty()),
        CalendarError::InvalidBoundary { day, timezone } => (2, day@, timezone@),
        CalendarError::TimestampOutOfRange => (3, Seq::empty(), Seq::empty()),
        CalendarError::EmptyRange => (4, Seq::empty(), Seq::empty()),
    }
}

/// A calendar day as plain values.
pub type DayView = (Seq<char>, Seq<char>, u64, u64);

pub open spec fn day_view(d: CalendarDay) -> DayView {
    (d.day@, d.timezone@, d.start_time, d.end_time)
}

pub open spec fn days_view(ds: Seq<CalendarDay>) -> Seq<DayView> {
    ds.map_values(|d: CalendarDay| day_view(d))
}

/// The day `date` in `zone`: its text, and the unix times of its midnight
/// and of the next day's (each unique, not before the epoch).
pub open spec fn day_outcome(zone: Seq<char>, date: CivilDate) -> Result<DayView, (u8, Seq<char>, Seq<char>)> {
    match following_date(date) {
        None => Err((3, Seq::empty(), Seq::empty())),
        Some(next) => match local_midnight(zone, date) {
            None => Err((2, civil_date_text(date), zone)),
            Some(start) => match local_midnight(zone, next) {
                None => Err((2, civil_date_text(next), zone)),
                Some(end) => if start < 0 || end < 0 {
                    Err((3, Seq::empty(), Seq::empty()))
                } else {
                    Ok((civil_date_text(date), zone, start as u64, end as u64))
                },
            },
        },
    }
}

/// The date of a `YYYY-MM-DD` day that chrono reads.
pub open spec fn parsed_day(day: Seq<char>) -> Result<CivilDate, (u8, Seq<char>, Seq<char>)> {
    if day_shaped(day) && civil_date(day) is Some {
        Ok(civil_date(day)->0)
    } else {
        Err((1, day, Seq::empty()))
    }
}

/// The `n` days from `first` on, or the first error.
pub open spec fn days_from(zone: Seq<char>, first: CivilDate, n: nat) -> Result<Seq<DayView>, (u8, Seq<char>, Seq<char>)>
    decreases n,
{
    if n == 0 {
        Ok(Seq::empty())
    } else {
        match days_from(zone, first, (n - 1) as nat) {
            Err(e) => Err(e),
            Ok(ds) => if n - 1 > i64::MAX {
                Err((3, Seq::empty(), Seq::empty()))
            } else {
                match date_plus_days(first, (n - 1) as i64) {
                    None => Err((3, Seq::empty(), Seq::empty())),
                    Some(date) => match day_outcome(zone, date) {
                        Err(e) => Err(e),
                        Ok(d) => Ok(ds.push(d)),
                    },
                }
            },
        }
    }
}

proof fn lemma_days_from_error_stays(zone: Seq<char>, first: CivilDate, k: nat, n: nat)
    requires
        k <= n,
        days_from(zone, first, k) is Err,
    ensures
        days_from(zone, first, n) == days_from(zone, first, k),
    decreases n - k,
{
    if k < n {
        lemma_days_from_error_stays(zone, first, k, (n - 1) as nat);
    }
}

/// Most days a range may span: more would overflow chrono's day arithmetic.
pub const MAX_RANGE_DAYS: u64 = 106_751_991_167_301;

fn parse_day(day: &str) -> (r: Result<CivilDate, CalendarError>)
    ensures
        match parsed_day(day@) {
            Ok(d) => r == Ok::<CivilDate, CalendarError>(d),
            Err(e) => r matches Err(x) && error_view(x) == e,
        },
{
    if !is_day_shaped(day) {
        return Err(CalendarError::InvalidDay(owned(day)));
    }
    match parse_civil_date(day) {
        Some(d) => Ok(d),
        None => Err(CalendarError::InvalidDay(owned(day))),
    }
}

/// The calendar of the deployment's time zone.
#[derive(Clone, Debug)]
pub struct DeploymentCalendar {
    timezone: String,
}

impl DeploymentCalendar {
    /// The zone's IANA name.
    pub closed spec fn zone(&self) -> Seq<char> {
        self.timezone@
    }

    /// The calendar of IANA zone `timezone`.
    pub fn parse(timezone: &str) -> (r: Result<Self, CalendarError>)
        ensures
            timezone_known(timezone@) ==> (r matches Ok(c) && c.zone() == timezone@),
            !timezone_known(timezone@) ==> (r matches Err(e) && error_view(e) == (0u8, Seq::<char>::empty(), timezone@)),
    {
        if is_known_timezone(timezone) {
            Ok(DeploymentCalendar { timezone: owned(timezone) })
        } else {
            Err(CalendarError::InvalidTimezone(owned(timezone)))
        }
    }

    /// The zone's IANA name.
    pub fn timezone_name(&self) -> (r: String)
        ensures
            r@ == self.zone(),
    {
        self.timezone.clone()
    }

    fn day_for_date(&self, date: CivilDate) -> (r: Result<CalendarDay, CalendarError>)
        ensures
            match day_outcome(self.zone(), date) {
                Ok(d) => r matches Ok(x) && day_view(x) == d,
                Err(e) => r matches Err(x) && error_view(x) == e,
            },
    {
        let next = match next_civil_date(date) {
            Some(n) => n,
            None => {
                return Err(CalendarError::TimestampOutOfRange);
            },
        };
        let start = match midnight_unix(self.timezone.as_str(), date) {
            Some(t) => t,
            None => {
                return Err(
                    CalendarError::InvalidBoundary { day: civil_date_string(date), timezone: self.timezone.clone() },
                );
            },
        };
        let end = match midnight_unix(self.timezone.as_str(), next) {
            Some(t) => t,
            None => {
                return Err(
                    CalendarError::InvalidBoundary { day: civil_date_string(next), timezone: self.timezone.clone() },
                );
            },
        };
        if start < 0 || end < 0 {
            return Err(CalendarError::TimestampOutOfRange);
        }
        Ok(CalendarDay {
            day: civil_date_string(date),
            timezone: self.timezone.clone(),
            start_time: start as u64,
            end_time: end as u64,
        })
    }

    /// The calendar day `day` (`YYYY-MM-DD`).
    pub fn day(&self, day: &str) -> (r: Result<CalendarDay, CalendarError>)
        ensures
            match parsed_day(day@) {
                Err(e) => r matches Err(x) && error_view(x) == e,
                Ok(date) => match day_outcome(self.zone(), date) {
                    Ok(d) => r matches Ok(x) && day_view(x) == d,
                    Err(e) => r matches Err(x) && error_view(x) == e,
                },
            },
    {
        match parse_day(day) {
            Ok(date) => self.day_for_date(date),
            Err(e) => Err(e),
        }
    }

    /// The calendar day containing unix time `now` (within chrono's range
    /// of dates, whatever the zone's offset).
    pub fn today(&self, now: u64) -> (r: Result<CalendarDay, CalendarError>)
        requires
            now <= CALENDAR_MAX_UNIX_SECONDS,
        ensures
            match local_date(self.zone(), now as i64) {
                None => r matches Err(x) && error_view(x).0 == 3,
                Some(date) => match parsed_day(civil_date_text(date)) {
                    Err(e) => r matches Err(x) && error_view(x) == e,
                    Ok(parsed) => match day_outcome(self.zone(), parsed) {
                        Ok(d) => r matches Ok(x) && day_view(x) == d,
                        Err(e) => r matches Err(x) && error_view(x) == e,
                    },
                },
            },
    {
        let date = match local_date_of(self.timezone.as_str(), now as i64) {
            Some(d) => d,
            None => {
                return Err(CalendarError::TimestampOutOfRange);
            },
        };
        let text = civil_date_string(date);
        self.day(text.as_str())
    }

    /// The `days` calendar days ending on `last_day`, and the unix-second
    /// range they cover.
    pub fn range_ending_on(&self, last_day: &str, days: usize) -> (r: Result<CalendarRange, CalendarError>)
        requires
            days as u64 <= MAX_RANGE_DAYS,
        ensures
            days == 0 ==> (r matches Err(x) && error_view(x).0 == 4),
            days > 0 ==> match parsed_day(last_day@) {
                Err(e) => r matches Err(x) && error_view(x) == e,
                Ok(last) => match date_minus_days(last, (days - 1) as i64) {
                    None => r matches Err(x) && error_view(x).0 == 3,
                    Some(first) => match days_from(self.zone(), first, days as nat) {
                        Err(e) => r matches Err(x) && error_view(x) == e,
                        Ok(ds) => r matches Ok(range) && days_view(range.days@) == ds && range.timezone@
                            == self.zone() && range.start_time == ds[0].2 && range.end_time == ds[ds.len()
                            - 1].3,
                    },
                },
            },
    {
        if days == 0 {
            return Err(CalendarError::EmptyRange);
        }
        let last = match parse_day(last_day) {
            Ok(d) => d,
            Err(e) => {
                return Err(e);
            },
        };
        let offset = (days - 1) as i64;
        let first = match sub_civil_days(last, offset) {
            Some(d) => d,
            None => {
                return Err(CalendarError::TimestampOutOfRange);
            },
        };
        let mut calendar_days: Vec<CalendarDay> = Vec::new();
        assert(days_view(calendar_days@) =~= Seq::<DayView>::empty());
        for index in 0..days
            invariant
                days as u64 <= MAX_RANGE_DAYS,
                days > 0,
                parsed_day(last_day@) == Ok::<CivilDate, (u8, Seq<char>, Seq<char>)>(last),
                date_minus_days(last, (days - 1) as i64) == Some(first),
                calendar_days@.len() == index,
                days_from(self.zone(), first, index as nat) == Ok::<Seq<DayView>, (u8, Seq<char>, Seq<char>)>(
                    days_view(calendar_days@),
                ),
        {
            let date = match add_civil_days(first, index as i64) {
                Some(d) => d,
                None => {
                    proof {
                        lemma_days_from_error_stays(self.zone(), first, (index + 1) as nat, days as nat);
                    }
                    return Err(CalendarError::TimestampOutOfRange);
                },
            };
            let d = match self.day_for_date(date) {
                Ok(d) => d,
                Err(e) => {
                    proof {
                        lemma_days_from_error_stays(self.zone(), first, (index + 1) as nat, days as nat);
                    }
                    return Err(e);
                },
            };
            let ghost before = calendar_days@;
            calendar_days.push(d);
            assert(days_view(calendar_days@) == days_view(before).push(day_view(d)));
        }
        let start_time = calendar_days[0].start_time;
        let end_time = calendar_days[days - 1].end_time;
        Ok(CalendarRange { timezone: self.timezone.clone(), start_time, end_time, days: calendar_days })
    }
}

} // verus!
