//! Days and years, as they are read and written.

use crate::dates::{
    date_text, days_later, days_in_month, leading_date, leading_year, midnight_text, next_day,
    valid_date, CalendarDate, MAX_YEAR,
};
use vstd::prelude::*;

verus! {

/// The year of a text is that of the date with which it starts, and there is none without a date.
pub proof fn law_year_is_that_of_the_date(value: Option<Seq<char>>, date: CalendarDate)
    ensures
        leading_date(value) == Some(date) ==> leading_year(value) == Some(date.year as i64),
        leading_date(value) is None ==> leading_year(value) is None,
        leading_date(None) is None,
{
}

/// A midnight is written as its date and the time of day in UTC.
pub proof fn law_midnight_starts_with_its_date(date: CalendarDate)
    ensures
        midnight_text(date) == date_text(date) + "T00:00:00Z"@,
{
}

/// Days are counted one by one, no day is none, and counting on goes on where counting stopped.
pub proof fn law_days_add_up(date: CalendarDate, a: nat, b: nat)
    ensures
        days_later(date, 0) == Some(date),
        days_later(date, a + b) == (match days_later(date, a) {
            Some(later) => days_later(later, b),
            None => None,
        }),
    decreases b,
{
    if b > 0 {
        law_days_add_up(date, a, (b - 1) as nat);
        assert((a + b - 1) as nat == a + (b - 1) as nat);
    } else {
        assert(a + b == a);
    }
}

/// One day later it is the next day of the month, or else the first of the next month, or else the
/// first of the next year.
pub proof fn law_next_day_follows(date: CalendarDate)
    requires
        valid_date(date),
    ensures
        ({
            let length = days_in_month(date.year as int, date.month as int);
            match days_later(date, 1) {
                Some(later) => {
                    ||| later.year == date.year && later.month == date.month && later.day
                        == date.day + 1 && date.day < length
                    ||| later.year == date.year && later.month == date.month + 1 && later.day == 1
                        && date.day == length
                    ||| later.year == date.year + 1 && later.month == 1 && later.day == 1
                        && date.month == 12 && date.day == length
                },
                None => date.year == MAX_YEAR && date.month == 12 && date.day == length,
            }
        }),
{
    reveal_with_fuel(days_later, 2);
    assert(days_later(date, 1) == next_day(date));
}

} // verus!
