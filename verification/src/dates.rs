//! Calendar plumbing: thin trusted wrappers around the date library, and the
//! verified date-range logic of the completed-tasks listing built on them.
use vstd::prelude::*;

verus! {

/// What parsing a string as an RFC 3339 timestamp yields: the instant in
/// milliseconds since the Unix epoch and the calendar day, counted in days
/// from the common era; nothing when the string is not such a timestamp.
/// The result depends on the characters alone.
pub uninterp spec fn rfc3339_parts(s: Seq<char>) -> Option<(i64, i64)>;

/// The instant, in milliseconds since the Unix epoch, that a string denotes
/// when read as an RFC 3339 timestamp.
pub open spec fn rfc3339_instant(s: Seq<char>) -> Option<i64> {
    match rfc3339_parts(s) {
        Some(p) => Some(p.0),
        None => None,
    }
}

/// Relies on chrono's `DateTime::parse_from_rfc3339`, and on
/// `timestamp_millis` and `NaiveDate::num_days_from_ce` to read the parsed
/// value out; the result is a function of the string alone. The day count
/// is widened from chrono's 32-bit value, which bounds it.
#[verifier::external_body]
pub fn parse_rfc3339(s: &str) -> (r: Option<(i64, i64)>)
    ensures
        r == rfc3339_parts(s@),
        match r {
            Some(p) => i32::MIN <= p.1 <= i32::MAX,
            None => true,
        },
{
    match chrono::DateTime::parse_from_rfc3339(s) {
        Ok(dt) => Some((
            dt.timestamp_millis(),
            chrono::Datelike::num_days_from_ce(&dt.date_naive()) as i64,
        )),
        Err(_) => None,
    }
}

/// The day, counted in days from the common era, that a string in the
/// format `YYYY-MM-DD` denotes; nothing when it does not parse as one. The
/// result depends on the characters alone.
pub uninterp spec fn ymd_day(s: Seq<char>) -> Option<i64>;

/// Relies on chrono's `NaiveDate::parse_from_str` with the `%Y-%m-%d`
/// format, and on `num_days_from_ce`; the result is a function of the
/// string alone. The day count is widened from chrono's 32-bit value,
/// which bounds it.
#[verifier::external_body]
pub fn parse_ymd(s: &str) -> (r: Option<i64>)
    ensures
        r == ymd_day(s@),
        match r {
            Some(v) => i32::MIN <= v <= i32::MAX,
            None => true,
        },
{
    match chrono::NaiveDate::parse_from_str(s, "%Y-%m-%d") {
        Ok(d) => Some(chrono::Datelike::num_days_from_ce(&d) as i64),
        Err(_) => None,
    }
}

/// The day, counted in days from the common era, on which the given civil
/// date falls; nothing when the year, month and day do not name a date.
pub uninterp spec fn day_of_ymd(y: i32, m: u8, d: u8) -> Option<i64>;

/// Relies on chrono's `NaiveDate::from_ymd_opt` and `num_days_from_ce`.
/// The day count is widened from chrono's 32-bit value, which bounds it.
#[verifier::external_body]
pub fn ymd_to_day(y: i32, m: u8, d: u8) -> (r: Option<i64>)
    ensures
        r == day_of_ymd(y, m, d),
        match r {
            Some(v) => i32::MIN <= v <= i32::MAX,
            None => true,
        },
{
    match chrono::NaiveDate::from_ymd_opt(y, m as u32, d as u32) {
        Some(date) => Some(chrono::Datelike::num_days_from_ce(&date) as i64),
        None => None,
    }
}

/// The civil date (year, month, day) of a day counted from the common era;
/// nothing when the day lies outside the calendar's range.
pub uninterp spec fn ymd_of_day(days: i64) -> Option<(i32, u8, u8)>;

/// Relies on chrono's `NaiveDate::from_num_days_from_ce_opt` and its
/// `Datelike` accessors; chrono documents the conversion as the inverse of
/// `num_days_from_ce`, which the second clause records.
#[verifier::external_body]
pub fn day_to_ymd(days: i64) -> (r: Option<(i32, u8, u8)>)
    ensures
        r == ymd_of_day(days),
        match r {
            Some(p) => day_of_ymd(p.0, p.1, p.2) == Some(days) && 1 <= p.1 <= 12 && 1 <= p.2
                <= 31,
            None => true,
        },
{
    let days32 = i32::try_from(days).ok()?;
    let date = chrono::NaiveDate::from_num_days_from_ce_opt(days32)?;
    let m = u8::try_from(chrono::Datelike::month(&date)).ok()?;
    let d = u8::try_from(chrono::Datelike::day(&date)).ok()?;
    Some((chrono::Datelike::year(&date), m, d))
}

/// How many days the given day lies after the Monday of its week: 0 for a
/// Monday up to 6 for a Sunday; nothing when the day lies outside the
/// calendar's range.
pub uninterp spec fn days_after_monday(days: i64) -> Option<u8>;

/// Relies on chrono's `Weekday::num_days_from_monday`, which is less
/// than 7.
#[verifier::external_body]
pub fn day_to_days_after_monday(days: i64) -> (r: Option<u8>)
    ensures
        r == days_after_monday(days),
        match r {
            Some(w) => w < 7,
            None => true,
        },
{
    let days32 = i32::try_from(days).ok()?;
    let date = chrono::NaiveDate::from_num_days_from_ce_opt(days32)?;
    let w = chrono::Datelike::weekday(&date).num_days_from_monday();
    u8::try_from(w).ok()
}


/// The character of one decimal digit.
pub open spec fn digit_char(d: int) -> char {
    ((48 + d) as u8) as char
}

/// A civil date written as `YYYY-MM-DD`.
pub open spec fn ymd_chars(y: int, m: int, d: int) -> Seq<char> {
    seq![
        digit_char(y / 1000 % 10),
        digit_char(y / 100 % 10),
        digit_char(y / 10 % 10),
        digit_char(y % 10),
        '-',
        digit_char(m / 10 % 10),
        digit_char(m % 10),
        '-',
        digit_char(d / 10 % 10),
        digit_char(d % 10),
    ]
}

/// The first instant of a day, written as the service's endpoints want it;
/// nothing when the day cannot be written with a four-digit year.
pub open spec fn day_start(day: i64) -> Option<Seq<char>> {
    match ymd_of_day(day) {
        Some(p) => if 0 <= p.0 <= 9999 {
            Some(ymd_chars(p.0 as int, p.1 as int, p.2 as int) + "T00:00:00Z"@)
        } else {
            None
        },
        None => None,
    }
}

/// The last instant of a day, written as the service's endpoints want it.
pub open spec fn day_end(day: i64) -> Option<Seq<char>> {
    match ymd_of_day(day) {
        Some(p) => if 0 <= p.0 <= 9999 {
            Some(ymd_chars(p.0 as int, p.1 as int, p.2 as int) + "T23:59:59Z"@)
        } else {
            None
        },
        None => None,
    }
}

fn digit_str(d: u8) -> (s: &'static str)
    requires
        d < 10,
    ensures
        s@ == seq![digit_char(d as int)],
{
    let s: &'static str = match d {
        0 => "0",
        1 => "1",
        2 => "2",
        3 => "3",
        4 => "4",
        5 => "5",
        6 => "6",
        7 => "7",
        8 => "8",
        _ => "9",
    };
    proof {
        reveal_strlit("0");
        reveal_strlit("1");
        reveal_strlit("2");
        reveal_strlit("3");
        reveal_strlit("4");
        reveal_strlit("5");
        reveal_strlit("6");
        reveal_strlit("7");
        reveal_strlit("8");
        reveal_strlit("9");
        assert(s@ =~= seq![digit_char(d as int)]);
    }
    s
}

fn push_digit(s: &mut String, d: u8)
    requires
        d < 10,
    ensures
        final(s)@ == old(s)@ + seq![digit_char(d as int)],
{
    s.append(digit_str(d));
}

/// Writes a civil date as `YYYY-MM-DD`.
fn ymd_string(y: i32, m: u8, d: u8) -> (s: String)
    requires
        0 <= y <= 9999,
        m < 100,
        d < 100,
    ensures
        s@ == ymd_chars(y as int, m as int, d as int),
{
    let mut s = String::new();
    push_digit(&mut s, ((y / 1000) % 10) as u8);
    push_digit(&mut s, ((y / 100) % 10) as u8);
    push_digit(&mut s, ((y / 10) % 10) as u8);
    push_digit(&mut s, (y % 10) as u8);
    s.append("-");
    push_digit(&mut s, (m / 10) % 10);
    push_digit(&mut s, m % 10);
    s.append("-");
    push_digit(&mut s, (d / 10) % 10);
    push_digit(&mut s, d % 10);
    proof {
        reveal_strlit("-");
        assert(s@ =~= ymd_chars(y as int, m as int, d as int));
    }
    s
}

/// Writes the first and last instants of a day; nothing when the day
/// cannot be written with a four-digit year.
fn day_bounds(day: i64) -> (r: Option<(String, String)>)
    ensures
        match r {
            Some(p) => day_start(day) == Some(p.0@) && day_end(day) == Some(p.1@),
            None => day_start(day) is None,
        },
{
    match day_to_ymd(day) {
        Some((y, m, d)) => {
            if 0 <= y && y <= 9999 {
                let date = ymd_string(y, m, d);
                let mut a = date.clone();
                let mut b = date;
                a.append("T00:00:00Z");
                b.append("T23:59:59Z");
                Some((a, b))
            } else {
                None
            }
        },
        None => None,
    }
}

/// The flags and explicit bounds a completed-tasks query can carry.
#[derive(Debug, Clone)]
pub struct RangeQuery {
    /// Tasks completed today.
    pub today: bool,
    /// Tasks completed yesterday.
    pub yesterday: bool,
    /// Tasks completed this week, Monday to today.
    pub this_week: bool,
    /// Tasks completed last week, Monday to Sunday.
    pub last_week: bool,
    /// Tasks completed this month, the 1st to today.
    pub this_month: bool,
    /// Explicit start of the range.
    pub since: Option<String>,
    /// Explicit end of the range.
    pub until: Option<String>,
}

/// Why a date range could not be produced or accepted.
#[derive(Debug, Clone, Copy, PartialEq, Eq, Structural)]
pub enum DateRangeError {
    /// A computed day fell outside the calendar or the four-digit years.
    Calendar,
    /// A bound is neither a `YYYY-MM-DD` date nor an RFC 3339 timestamp.
    BadDate,
    /// The end of the range lies before its start.
    UntilBeforeSince,
    /// The range is longer than the service accepts.
    TooLong,
}

/// Pairs two optional bounds.
pub open spec fn both(a: Option<Seq<char>>, b: Option<Seq<char>>) -> Option<(Seq<char>, Seq<char>)> {
    match (a, b) {
        (Some(x), Some(y)) => Some((x, y)),
        _ => None,
    }
}

/// The range the completed-tasks listing asks the service for, given the
/// query and today's civil date: the chosen preset, or the explicit
/// bounds, or today by default. Nothing when a computed day falls off the
/// calendar.
pub open spec fn spec_date_range(
    today: bool,
    yesterday: bool,
    this_week: bool,
    last_week: bool,
    this_month: bool,
    since: Option<Seq<char>>,
    until: Option<Seq<char>>,
    y: i32,
    m: u8,
    d: u8,
) -> Option<(Seq<char>, Seq<char>)> {
    match day_of_ymd(y, m, d) {
        None => None,
        Some(t) => if today {
            both(day_start(t), day_end(t))
        } else if yesterday {
            both(day_start((t - 1) as i64), day_end((t - 1) as i64))
        } else if this_week {
            match days_after_monday(t) {
                None => None,
                Some(w) => both(day_start((t - w) as i64), day_end(t)),
            }
        } else if last_week {
            match days_after_monday(t) {
                None => None,
                Some(w) => both(day_start((t - w - 7) as i64), day_end((t - w - 1) as i64)),
            }
        } else if this_month {
            match day_of_ymd(y, m, 1) {
                None => None,
                Some(f) => both(day_start(f), day_end(t)),
            }
        } else {
            match (since, until) {
                (Some(a), Some(b)) => Some((a, b)),
                _ => both(day_start(t), day_end(t)),
            }
        },
    }
}

/// Computes the date range of a completed-tasks query from today's civil
/// date: a convenience preset when one is set, else the explicit bounds,
/// else today.
pub fn calculate_date_range(q: &RangeQuery, y: i32, m: u8, d: u8) -> (r: Result<
    (String, String),
    DateRangeError,
>)
    ensures
        ({
            let sr = spec_date_range(
                q.today,
                q.yesterday,
                q.this_week,
                q.last_week,
                q.this_month,
                match q.since {
                    Some(s) => Some(s@),
                    None => None,
                },
                match q.until {
                    Some(s) => Some(s@),
                    None => None,
                },
                y,
                m,
                d,
            );
            match r {
                Ok(p) => sr == Some((p.0@, p.1@)),
                Err(e) => sr is None && e == DateRangeError::Calendar,
            }
        }),
{
    let t = match ymd_to_day(y, m, d) {
        Some(t) => t,
        None => {
            return Err(DateRangeError::Calendar);
        },
    };
    if q.today {
        match day_bounds(t) {
            Some(p) => Ok(p),
            None => Err(DateRangeError::Calendar),
        }
    } else if q.yesterday {
        match day_bounds(t - 1) {
            Some(p) => Ok(p),
            None => Err(DateRangeError::Calendar),
        }
    } else if q.this_week {
        let w = match day_to_days_after_monday(t) {
            Some(w) => w,
            None => {
                return Err(DateRangeError::Calendar);
            },
        };
        match (day_bounds(t - w as i64), day_bounds(t)) {
            (Some(a), Some(b)) => Ok((a.0, b.1)),
            _ => Err(DateRangeError::Calendar),
        }
    } else if q.last_week {
        let w = match day_to_days_after_monday(t) {
            Some(w) => w,
            None => {
                return Err(DateRangeError::Calendar);
            },
        };
        match (day_bounds(t - w as i64 - 7), day_bounds(t - w as i64 - 1)) {
            (Some(a), Some(b)) => Ok((a.0, b.1)),
            _ => Err(DateRangeError::Calendar),
        }
    } else if q.this_month {
        let f = match ymd_to_day(y, m, 1) {
            Some(f) => f,
            None => {
                return Err(DateRangeError::Calendar);
            },
        };
        match (day_bounds(f), day_bounds(t)) {
            (Some(a), Some(b)) => Ok((a.0, b.1)),
            _ => Err(DateRangeError::Calendar),
        }
    } else {
        let explicit = q.since.is_some() && q.until.is_some();
        if explicit {
            let a = match &q.since {
                Some(s) => s.clone(),
                None => String::new(),
            };
            let b = match &q.until {
                Some(s) => s.clone(),
                None => String::new(),
            };
            Ok((a, b))
        } else {
            match day_bounds(t) {
                Some(p) => Ok(p),
                None => Err(DateRangeError::Calendar),
            }
        }
    }
}

/// The day a range bound denotes: a `YYYY-MM-DD` date, or the day of an
/// RFC 3339 timestamp.
pub open spec fn spec_bound_day(s: Seq<char>) -> Option<i64> {
    match ymd_day(s) {
        Some(v) => Some(v),
        None => match rfc3339_parts(s) {
            Some(p) => Some(p.1),
            None => None,
        },
    }
}

/// Why a range is rejected, if it is: an unreadable bound, an end before
/// the start, or more whole weeks than the service accepts.
pub open spec fn spec_validate_range(a: Seq<char>, b: Seq<char>, max_weeks: i64) -> Option<
    DateRangeError,
> {
    match spec_bound_day(a) {
        None => Some(DateRangeError::BadDate),
        Some(sd) => match spec_bound_day(b) {
            None => Some(DateRangeError::BadDate),
            Some(ud) => if ud < sd {
                Some(DateRangeError::UntilBeforeSince)
            } else if (ud - sd) / 7 > max_weeks {
                Some(DateRangeError::TooLong)
            } else {
                None
            },
        },
    }
}

fn bound_day(s: &str) -> (r: Option<i64>)
    ensures
        r == spec_bound_day(s@),
        match r {
            Some(v) => i32::MIN <= v <= i32::MAX,
            None => true,
        },
{
    match parse_ymd(s) {
        Some(v) => Some(v),
        None => match parse_rfc3339(s) {
            Some(p) => Some(p.1),
            None => None,
        },
    }
}

/// Checks that a range is readable, runs forward, and spans no more whole
/// weeks than the service accepts.
pub fn validate_date_range(since: &str, until: &str, max_weeks: i64) -> (r: Result<
    (),
    DateRangeError,
>)
    ensures
        match r {
            Ok(_) => spec_validate_range(since@, until@, max_weeks) is None,
            Err(e) => spec_validate_range(since@, until@, max_weeks) == Some(e),
        },
{
    let sd = match bound_day(since) {
        Some(v) => v,
        None => {
            return Err(DateRangeError::BadDate);
        },
    };
    let ud = match bound_day(until) {
        Some(v) => v,
        None => {
            return Err(DateRangeError::BadDate);
        },
    };
    if ud < sd {
        return Err(DateRangeError::UntilBeforeSince);
    }
    if (ud - sd) / 7 > max_weeks {
        return Err(DateRangeError::TooLong);
    }
    Ok(())
}

} // verus!
