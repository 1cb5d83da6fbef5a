use season_centralizer::dates::{
    date_key, iso_date_at_midnight, parse_date, read_whole_date, year_of, CalendarDate,
};
use season_centralizer::decimal::{natural_text, parse_integer, write_integer};

fn date(year: i32, month: u32, day: u32) -> CalendarDate {
    CalendarDate { year, month, day }
}

#[test]
fn a_date_is_read_from_the_first_ten_bytes() {
    assert_eq!(parse_date(Some("2013-04-07")), Some(date(2013, 4, 7)));
    assert_eq!(parse_date(Some("2013-04-07T12:30:00Z")), Some(date(2013, 4, 7)));
    assert_eq!(parse_date(Some("2013-04-0")), None);
    assert_eq!(parse_date(Some("2013-02-29")), None);
    assert_eq!(parse_date(Some("2012-02-29")), Some(date(2012, 2, 29)));
    assert_eq!(parse_date(Some("2013-04-0é")), None);
    assert_eq!(parse_date(Some("abcdefghij")), None);
    assert_eq!(parse_date(None), None);
    assert_eq!(read_whole_date("2013-04-07 "), None);
}

#[test]
fn years_are_read_as_numbers() {
    assert_eq!(year_of(Some("1999-10-20")), Some(1999));
    assert_eq!(year_of(Some("0007-01-01")), Some(7));
    assert_eq!(year_of(Some("1999")), None);
    assert_eq!(year_of(None), None);
}

#[test]
fn midnights_are_written_in_utc() {
    assert_eq!(iso_date_at_midnight(date(2013, 4, 7)), "2013-04-07T00:00:00Z");
    assert_eq!(iso_date_at_midnight(date(-5, 12, 31)), "-0005-12-31T00:00:00Z");
    assert_eq!(iso_date_at_midnight(date(12345, 1, 2)), "+12345-01-02T00:00:00Z");
}

#[test]
fn a_midnight_is_read_back_as_its_date() {
    for day in [date(0, 1, 1), date(1999, 12, 31), date(9999, 12, 31)] {
        assert_eq!(parse_date(Some(&iso_date_at_midnight(day))), Some(day));
    }
}

#[test]
fn date_keys_are_written_as_year_month_and_day() {
    assert_eq!(date_key(Some("2013-04-07T12:30:00Z")), Some("2013-04-07".to_string()));
    assert_eq!(date_key(Some("soon")), None);
    assert_eq!(date_key(None), None);
}

#[test]
fn whole_numbers_are_written_and_read() {
    assert_eq!(natural_text(0), "0");
    assert_eq!(natural_text(u64::MAX), "18446744073709551615");
    assert_eq!(write_integer(i64::MIN), "-9223372036854775808");
    for n in [i64::MIN, -1, 0, 42, i64::MAX] {
        assert_eq!(parse_integer(&write_integer(n)), Some(n));
    }
    assert_eq!(parse_integer("+7"), Some(7));
    assert_eq!(parse_integer("9223372036854775808"), None);
    assert_eq!(parse_integer(""), None);
    assert_eq!(parse_integer("-"), None);
    assert_eq!(parse_integer("1a"), None);
}
