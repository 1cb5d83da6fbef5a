//! Calendar dates, as broadcasts are dated.

use crate::decimal::{
    all_digits, digits, digits_value, lemma_digits, padded_digits, parse_integer, parsed_integer,
    unsigned_part,
};
use crate::text::{byte_prefix, first_bytes, is_ascii_text, lemma_ascii_prefix};
use chrono::Datelike;
use vstd::prelude::*;

verus! {

/// A day of the proleptic Gregorian calendar.
#[derive(Clone, Copy, Debug, PartialEq, Eq, Structural)]
pub struct CalendarDate {
    pub year: i32,
    pub month: u32,
    pub day: u32,
}

/// The last year that a date can have.
pub const MAX_YEAR: i32 = 262142;

/// The first year that a date can have.
pub const MIN_YEAR: i32 = -262143;

pub open spec fn leap_year(year: int) -> bool {
    year % 4 == 0 && (year % 100 != 0 || year % 400 == 0)
}

pub open spec fn days_in_month(year: int, month: int) -> int {
    if month == 2 {
        if leap_year(year) {
            29
        } else {
            28
        }
    } else if month == 4 || month == 6 || month == 9 || month == 11 {
        30
    } else {
        31
    }
}

/// The day exists, and its year is within range.
pub open spec fn valid_date(date: CalendarDate) -> bool {
    &&& MIN_YEAR <= date.year <= MAX_YEAR
    &&& 1 <= date.month <= 12
    &&& 1 <= date.day <= days_in_month(date.year as int, date.month as int)
}

/// The day after, unless it falls beyond the last year.
pub open spec fn next_day(date: CalendarDate) -> Option<CalendarDate> {
    if date.day < days_in_month(date.year as int, date.month as int) {
        Some(CalendarDate { day: (date.day + 1) as u32, ..date })
    } else if date.month < 12 {
        Some(CalendarDate { month: (date.month + 1) as u32, day: 1, ..date })
    } else if date.year < MAX_YEAR {
        Some(CalendarDate { year: (date.year + 1) as i32, month: 1, day: 1 })
    } else {
        None
    }
}

/// The day that comes `days` days after a date, unless it falls beyond the last year.
pub open spec fn days_later(date: CalendarDate, days: nat) -> Option<CalendarDate>
    decreases days,
{
    if days == 0 {
        Some(date)
    } else {
        match days_later(date, (days - 1) as nat) {
            Some(day) => next_day(day),
            None => None,
        }
    }
}

/// A year as dates write it: four digits, and a sign with at least four digits outside the years
/// 0 to 9999.
pub open spec fn year_text(year: int) -> Seq<char> {
    if 0 <= year <= 9999 {
        padded_digits(year as nat, 4)
    } else if year < 0 {
        seq!['-'] + padded_digits((-year) as nat, 4)
    } else {
        seq!['+'] + padded_digits(year as nat, 4)
    }
}

/// A date as year, month and day.
pub open spec fn date_text(date: CalendarDate) -> Seq<char> {
    year_text(date.year as int) + seq!['-'] + padded_digits(date.month as nat, 2) + seq!['-']
        + padded_digits(date.day as nat, 2)
}

/// The midnight at which a date begins, in UTC.
pub open spec fn midnight_text(date: CalendarDate) -> Seq<char> {
    date_text(date) + "T00:00:00Z"@
}

/// The year, month and day that a text stands for in a given notation.
pub uninterp spec fn parsed_date(text: Seq<char>, notation: Seq<char>) -> Option<(i32, u32, u32)>;

/// Calls `chrono::NaiveDate::parse_from_str` with the notation of year, month and day, and takes
/// the date apart. Which texts it accepts is left unsaid, but for these facts: a date that it
/// gives exists, and a date written in that notation is read back.
#[verifier::external_body]
fn read_date(text: &str, notation: &str) -> (parts: Option<(i32, u32, u32)>)
    requires
        notation@ == "%Y-%m-%d"@,
    ensures
        parts == parsed_date(text@, notation@),
        parts matches Some((year, month, day)) ==> valid_date(CalendarDate { year, month, day }),
        forall|date: CalendarDate|
            valid_date(date) && text@ == #[trigger] date_text(date) ==> parts == Some(
                (date.year, date.month, date.day),
            ),
{
    let date = chrono::NaiveDate::parse_from_str(text, notation).ok();
    date.map(|d| (d.year(), d.month(), d.day()))
}

/// Calls `chrono::NaiveDate::format` and writes the result out, for the two notations in which
/// dates are written here.
#[verifier::external_body]
fn write_date(date: CalendarDate, notation: &str) -> (text: String)
    requires
        valid_date(date),
        notation@ == "%Y-%m-%d"@ || notation@ == "%Y"@,
    ensures
        notation@ == "%Y-%m-%d"@ ==> text@ == date_text(date),
        notation@ == "%Y"@ ==> text@ == year_text(date.year as int),
{
    let day = chrono::NaiveDate::from_ymd_opt(date.year, date.month, date.day).unwrap();
    day.format(notation).to_string()
}

/// Calls `chrono::DateTime::to_rfc3339_opts` on a second in UTC, without a fraction and with `Z`
/// for the offset.
#[verifier::external_body]
fn write_moment(date: CalendarDate, hour: u32, minute: u32, second: u32) -> (text: String)
    requires
        valid_date(date),
        hour < 24,
        minute < 60,
        second < 60,
    ensures
        text@ == date_text(date) + seq!['T'] + padded_digits(hour as nat, 2) + seq![':']
            + padded_digits(minute as nat, 2) + seq![':'] + padded_digits(second as nat, 2) + seq![
            'Z',
        ],
{
    let day = chrono::NaiveDate::from_ymd_opt(date.year, date.month, date.day).unwrap();
    let moment = day.and_hms_opt(hour, minute, second).unwrap();
    chrono::DateTime::<chrono::Utc>::from_naive_utc_and_offset(moment, chrono::Utc)
        .to_rfc3339_opts(chrono::SecondsFormat::Secs, true)
}

/// Calls `chrono::NaiveDate::checked_add_days`, which counts days forward and gives up beyond the
/// last year.
#[verifier::external_body]
pub(crate) fn add_days(date: CalendarDate, days: u64) -> (later: Option<CalendarDate>)
    requires
        valid_date(date),
    ensures
        later == days_later(date, days as nat),
{
    let day = chrono::NaiveDate::from_ymd_opt(date.year, date.month, date.day).unwrap();
    let later = day.checked_add_days(chrono::Days::new(days));
    later.map(|d| CalendarDate { year: d.year(), month: d.month(), day: d.day() })
}

/// What an optional text holds.
pub open spec fn held_text(value: Option<&str>) -> Option<Seq<char>> {
    match value {
        Some(text) => Some(text@),
        None => None,
    }
}

/// The date with which a text starts: the one that its first ten bytes write as year, month and
/// day.
pub open spec fn leading_date(value: Option<Seq<char>>) -> Option<CalendarDate> {
    match value {
        None => None,
        Some(text) => match byte_prefix(text, 10) {
            None => None,
            Some(start) => date_in(start),
        },
    }
}

/// The date that a text writes as year, month and day.
pub open spec fn date_in(text: Seq<char>) -> Option<CalendarDate> {
    match parsed_date(text, "%Y-%m-%d"@) {
        Some((year, month, day)) => Some(CalendarDate { year, month, day }),
        None => None,
    }
}

/// The year of the date with which a text starts.
pub open spec fn leading_year(value: Option<Seq<char>>) -> Option<i64> {
    match leading_date(value) {
        Some(date) => Some(date.year as i64),
        None => None,
    }
}

/// Reads a text that is a date.
pub fn read_whole_date(text: &str) -> (date: Option<CalendarDate>)
    ensures
        date == date_in(text@),
        date matches Some(d) ==> valid_date(d),
        forall|d: CalendarDate|
            valid_date(d) && text@ == #[trigger] date_text(d) ==> date == Some(d),
{
    match read_date(text, "%Y-%m-%d") {
        Some((year, month, day)) => Some(CalendarDate { year, month, day }),
        None => None,
    }
}

/// The date with which a text starts.
pub fn parse_date(value: Option<&str>) -> (date: Option<CalendarDate>)
    ensures
        date == leading_date(held_text(value)),
        date matches Some(d) ==> valid_date(d),
        forall|d: CalendarDate|
            value is Some && valid_date(d) && byte_prefix(value->0@, 10) == Some(
                #[trigger] date_text(d),
            ) ==> date == Some(d),
        forall|d: CalendarDate|
            value is Some && valid_date(d) && 0 <= d.year <= 9999 && value->0@
                == #[trigger] midnight_text(d) ==> date == Some(d),
{
    proof {
        assert forall|d: CalendarDate|
            value is Some && valid_date(d) && 0 <= d.year <= 9999 && value->0@
                == #[trigger] midnight_text(d) implies byte_prefix(value->0@, 10) == Some(
            date_text(d),
        ) by {
            lemma_date_text(d);
            lemma_ascii_prefix(date_text(d), "T00:00:00Z"@);
        }
    }
    match value {
        None => None,
        Some(text) => match first_bytes(text, 10) {
            None => None,
            Some(start) => read_whole_date(start),
        },
    }
}

/// The year of the date with which a text starts.
pub fn year_of(value: Option<&str>) -> (year: Option<i64>)
    ensures
        year == leading_year(held_text(value)),
{
    match parse_date(value) {
        None => None,
        Some(date) => {
            proof {
                lemma_year_text(date.year as int);
            }
            parse_integer(write_date(date, "%Y").as_str())
        },
    }
}

/// The midnight at which a date begins, in UTC.
pub fn iso_date_at_midnight(value: CalendarDate) -> (text: String)
    requires
        valid_date(value),
    ensures
        text@ == midnight_text(value),
{
    let text = write_moment(value, 0, 0, 0);
    proof {
        reveal_strlit("T00:00:00Z");
        assert(padded_digits(0, 2) =~= seq!['0', '0']);
        assert(text@ =~= midnight_text(value));
    }
    text
}

/// The date with which a text starts, written as year, month and day.
pub fn date_key(value: Option<&str>) -> (key: Option<String>)
    ensures
        key is Some == leading_date(held_text(value)) is Some,
        key matches Some(text) ==> text@ == date_text(leading_date(held_text(value))->0),
{
    match parse_date(value) {
        None => None,
        Some(date) => Some(write_date(date, "%Y-%m-%d")),
    }
}

/// Zeros in front of written digits do not change the number.
proof fn lemma_padded(n: nat, width: nat)
    ensures
        padded_digits(n, width).len() >= width,
        padded_digits(n, width).len() > 0,
        all_digits(padded_digits(n, width)),
        digits_value(padded_digits(n, width)) == n,
{
    lemma_digits(n);
    let written = digits(n);
    if written.len() < width {
        let zeros = Seq::new((width - written.len()) as nat, |i: int| '0');
        lemma_zeros(zeros, written);
    }
}

proof fn lemma_zeros(zeros: Seq<char>, written: Seq<char>)
    requires
        forall|i: int| 0 <= i < zeros.len() ==> zeros[i] == '0',
    ensures
        digits_value(zeros + written) == digits_value(written),
    decreases zeros.len() + written.len(),
{
    let whole = zeros + written;
    if written.len() > 0 {
        assert(whole.drop_last() =~= zeros + written.drop_last());
        lemma_zeros(zeros, written.drop_last());
    } else if zeros.len() > 0 {
        assert(whole.drop_last() =~= zeros.drop_last() + written);
        lemma_zeros(zeros.drop_last(), written);
    }
}

/// A written year stands for the year.
proof fn lemma_year_text(year: int)
    requires
        MIN_YEAR <= year <= MAX_YEAR,
    ensures
        parsed_integer(year_text(year)) == Some(year as i64),
{
    let size: nat = if year < 0 {
        (-year) as nat
    } else {
        year as nat
    };
    lemma_padded(size, 4);
    let body = padded_digits(size, 4);
    assert('0' <= body[0] <= '9');
    assert(unsigned_part(year_text(year)) =~= body);
}

/// A date that was moved forward exists.
pub proof fn lemma_days_later_valid(date: CalendarDate, days: nat)
    requires
        valid_date(date),
    ensures
        days_later(date, days) matches Some(later) ==> valid_date(later),
    decreases days,
{
    if days > 0 {
        lemma_days_later_valid(date, (days - 1) as nat);
    }
}

/// How many digits a number below ten thousand has.
proof fn lemma_digits_len(n: nat)
    ensures
        n < 10 ==> digits(n).len() == 1,
        10 <= n < 100 ==> digits(n).len() == 2,
        100 <= n < 1000 ==> digits(n).len() == 3,
        1000 <= n < 10000 ==> digits(n).len() == 4,
{
    reveal_with_fuel(digits, 4);
}

/// A date of the years 0 to 9999 takes ten ASCII characters.
proof fn lemma_date_text(date: CalendarDate)
    requires
        valid_date(date),
        0 <= date.year <= 9999,
    ensures
        date_text(date).len() == 10,
        is_ascii_text(date_text(date)),
{
    lemma_padded(date.year as nat, 4);
    lemma_padded(date.month as nat, 2);
    lemma_padded(date.day as nat, 2);
    lemma_digits_len(date.year as nat);
    lemma_digits_len(date.month as nat);
    lemma_digits_len(date.day as nat);
    let year = padded_digits(date.year as nat, 4);
    let month = padded_digits(date.month as nat, 2);
    let day = padded_digits(date.day as nat, 2);
    let text = date_text(date);
    assert forall|i: int| 0 <= i < text.len() implies (#[trigger] text[i]) as u32 <= 0x7f by {
        if i < 4 {
            assert('0' <= year[i] <= '9');
        } else if 5 <= i < 7 {
            assert('0' <= month[i - 5] <= '9');
        } else if 8 <= i {
            assert('0' <= day[i - 8] <= '9');
        }
    }
}

} // verus!
