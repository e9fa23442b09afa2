use json_engine::JsonDate;

fn date(year: u16, month: u8, date: u8, hour: u8, minute: u8, second: u8) -> JsonDate {
    JsonDate { year, month, date, hour, minute, second }
}

#[test]
fn date_without_time_is_midnight() {
    let d = JsonDate::from_str("2023-06-06").unwrap();
    assert_eq!(d, date(2023, 6, 6, 0, 0, 0));
    assert_eq!(d.to_string(), "2023-06-06T00:00:00");
}

#[test]
fn date_with_time() {
    assert_eq!(JsonDate::from_str("1999-12-31T23:59:58"), Some(date(1999, 12, 31, 23, 59, 58)));
    assert_eq!(JsonDate::from_str("2023-06-06T12:30"), Some(date(2023, 6, 6, 12, 30, 0)));
    assert_eq!(JsonDate::from_str("2023-06-06T7"), Some(date(2023, 6, 6, 7, 0, 0)));
    assert_eq!(JsonDate::from_str("2023-06-06T"), Some(date(2023, 6, 6, 0, 0, 0)));
}

#[test]
fn unreadable_time_fields_are_zero() {
    assert_eq!(JsonDate::from_str("2023-06-06Txx:30:yy"), Some(date(2023, 6, 6, 0, 30, 0)));
    assert_eq!(JsonDate::from_str("2023-06-06T12:300:05"), Some(date(2023, 6, 6, 12, 0, 5)));
    assert_eq!(JsonDate::from_str("2023-06-06T:::"), Some(date(2023, 6, 6, 0, 0, 0)));
    assert_eq!(JsonDate::from_str("2023-06-06T-1:+2: 3"), Some(date(2023, 6, 6, 0, 2, 0)));
    assert_eq!(JsonDate::from_str("2023-06-06T12:30:05Z"), Some(date(2023, 6, 6, 12, 30, 0)));
}

#[test]
fn fields_are_not_held_to_the_calendar() {
    assert_eq!(JsonDate::from_str("0-0-0"), Some(date(0, 0, 0, 0, 0, 0)));
    assert_eq!(JsonDate::from_str("65535-255-255T255:255:255"), Some(date(65535, 255, 255, 255, 255, 255)));
    assert_eq!(JsonDate::from_str("2023-13-32T25:61:61"), Some(date(2023, 13, 32, 25, 61, 61)));
}

#[test]
fn date_fields_are_all_needed() {
    assert_eq!(JsonDate::from_str(""), None);
    assert_eq!(JsonDate::from_str("2023"), None);
    assert_eq!(JsonDate::from_str("2023-06"), None);
    assert_eq!(JsonDate::from_str("2023-06-"), None);
    assert_eq!(JsonDate::from_str("2023--06"), None);
    assert_eq!(JsonDate::from_str("-2023-06-06"), None);
    assert_eq!(JsonDate::from_str("2023-06-xx"), None);
    assert_eq!(JsonDate::from_str("2023-06-06 "), None);
    assert_eq!(JsonDate::from_str(" 2023-06-06"), None);
    assert_eq!(JsonDate::from_str("T12:00:00"), None);
    assert_eq!(JsonDate::from_str("2023/06/06"), None);
}

#[test]
fn date_fields_must_fit() {
    assert_eq!(JsonDate::from_str("65536-06-06"), None);
    assert_eq!(JsonDate::from_str("2023-256-06"), None);
    assert_eq!(JsonDate::from_str("2023-06-256"), None);
    assert_eq!(JsonDate::from_str("99999999999999999999999-06-06"), None);
}

#[test]
fn plus_sign_and_further_pieces() {
    assert_eq!(JsonDate::from_str("+2023-+6-+06"), Some(date(2023, 6, 6, 0, 0, 0)));
    assert_eq!(JsonDate::from_str("2023-06-06-07"), Some(date(2023, 6, 6, 0, 0, 0)));
    assert_eq!(JsonDate::from_str("2023-06-06T01:02:03:04"), Some(date(2023, 6, 6, 1, 2, 3)));
    assert_eq!(JsonDate::from_str("2023-06-06T01:02:03T09:09:09"), Some(date(2023, 6, 6, 1, 2, 3)));
    assert_eq!(JsonDate::from_str("0002023-006-0006"), Some(date(2023, 6, 6, 0, 0, 0)));
}

#[test]
fn four_digits_pads_and_wraps() {
    assert_eq!(JsonDate::four_digits(0), "0000");
    assert_eq!(JsonDate::four_digits(7), "0007");
    assert_eq!(JsonDate::four_digits(42), "0042");
    assert_eq!(JsonDate::four_digits(999), "0999");
    assert_eq!(JsonDate::four_digits(1000), "1000");
    assert_eq!(JsonDate::four_digits(9999), "9999");
    assert_eq!(JsonDate::four_digits(10000), "0000");
    assert_eq!(JsonDate::four_digits(12345), "2345");
    assert_eq!(JsonDate::four_digits(65535), "5535");
}

#[test]
fn two_digits_pads_and_wraps() {
    assert_eq!(JsonDate::two_digits(0), "00");
    assert_eq!(JsonDate::two_digits(9), "09");
    assert_eq!(JsonDate::two_digits(10), "10");
    assert_eq!(JsonDate::two_digits(99), "99");
    assert_eq!(JsonDate::two_digits(100), "00");
    assert_eq!(JsonDate::two_digits(123), "23");
    assert_eq!(JsonDate::two_digits(255), "55");
}

#[test]
fn to_string_writes_every_field() {
    assert_eq!(date(2023, 6, 6, 1, 2, 3).to_string(), "2023-06-06T01:02:03");
    assert_eq!(date(1, 12, 31, 23, 59, 59).to_string(), "0001-12-31T23:59:59");
    assert_eq!(date(12345, 101, 200, 255, 100, 199).to_string(), "2345-01-00T55:00:99");
}

#[test]
fn written_date_is_read_again() {
    let d = date(1987, 4, 9, 8, 7, 6);
    assert_eq!(JsonDate::from_str(&d.to_string()), Some(d));
}
