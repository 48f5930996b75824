use cli_mail::util::{compare_date, fit_string_to_size, format_date, Timestamp};
use std::cmp::Ordering;

fn ts(year: i64, month: u8, day: i8, hour: i8, minute: i8, second: i8) -> Timestamp {
    Timestamp { year, month, day, hour, minute, second }
}

#[test]
fn fit_pads_short_text() {
    assert_eq!(fit_string_to_size(&String::from("abc"), 6), "abc   ");
}

#[test]
fn fit_cuts_long_text() {
    assert_eq!(fit_string_to_size(&String::from("abcdefghij"), 8), "abcd ...");
}

#[test]
fn fit_keeps_exact_text() {
    assert_eq!(fit_string_to_size(&String::from("abcd"), 4), "abcd");
}

#[test]
fn format_date_pads_fields() {
    assert_eq!(format_date(&ts(2019, 12, 4, 10, 2, 8)), "04.12.2019, 10:02:08");
}

#[test]
fn compare_date_by_fields() {
    let a = ts(2019, 12, 4, 10, 2, 8);
    assert_eq!(compare_date(&a, &a), Ordering::Equal);
    assert_eq!(compare_date(&a, &ts(2020, 1, 1, 0, 0, 0)), Ordering::Less);
    assert_eq!(compare_date(&a, &ts(2019, 12, 4, 10, 2, 7)), Ordering::Greater);
    assert_eq!(compare_date(&ts(2019, 11, 30, 23, 59, 59), &a), Ordering::Less);
}
