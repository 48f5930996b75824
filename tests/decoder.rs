use cli_mail::decoder::{decode, decode_date};
use cli_mail::util::Timestamp;

fn ts(year: i64, month: u8, day: i8, hour: i8, minute: i8, second: i8) -> Timestamp {
    Timestamp { year, month, day, hour, minute, second }
}

#[test]
fn decode_plain_text_unchanged() {
    assert_eq!(decode(String::from("Hello, world = ? _ plain")), "Hello, world = ? _ plain");
    assert_eq!(decode(String::new()), "");
}

#[test]
fn decode_quoted_hello_world() {
    assert_eq!(decode(String::from("=?UTF-8?q?Hello_World?=")), "Hello World");
}

#[test]
fn decode_lower_case_marker() {
    assert_eq!(decode(String::from("=?utf-8?q?a=41b?=")), "aAb");
}

#[test]
fn decode_dangling_escape_does_not_panic() {
    assert_eq!(decode(String::from("=?UTF-8?q?abc=4?=")), "abc");
    assert_eq!(decode(String::from("=?UTF-8?q?abc=")), "abc");
}

#[test]
fn decode_invalid_hex_is_dropped() {
    assert_eq!(decode(String::from("=?UTF-8?q?a=zzb?=")), "ab");
}

#[test]
fn decode_multibyte_escapes() {
    assert_eq!(decode(String::from("=?UTF-8?q?Caf=C3=A9?=")), "Caf\u{e9}");
}

#[test]
fn decode_invalid_utf8_bytes_dropped() {
    assert_eq!(decode(String::from("=?UTF-8?q?a=FFb?=")), "ab");
}

#[test]
fn decode_multiple_spans_keep_text_around() {
    let input = "Re: =?UTF-8?q?Caf=C3=A9?= and =?UTF-8?B?SGVsbG8=?= end";
    assert_eq!(decode(String::from(input)), "Re: Caf\u{e9} and Hello end");
}

#[test]
fn decode_base64_garbage_is_empty() {
    assert_eq!(decode(String::from("x=?UTF-8?B?!!!?=y")), "xy");
}

#[test]
fn decode_base64_not_utf8_is_empty() {
    // "/w==" is the single byte 0xFF
    assert_eq!(decode(String::from("x=?UTF-8?B?/w==?=y")), "xy");
}

#[test]
fn decode_unterminated_word_runs_to_end() {
    assert_eq!(decode(String::from("x=?UTF-8?q?ab_c")), "xab c");
}

#[test]
fn decode_date_example() {
    let d = decode_date("Wed, 04 Dec 2019 10:02:08 +0000");
    assert_eq!(d, Some(ts(2019, 12, 4, 10, 2, 8)));
}

#[test]
fn decode_date_short_clock_fields() {
    assert_eq!(decode_date("Wed, 04 Dec 2019 10:2:8 +0000"), Some(ts(2019, 12, 4, 10, 2, 8)));
}

#[test]
fn decode_date_month_any_case() {
    assert_eq!(decode_date("Wed, 04 DEC 2019 10:02:08 +0000"), Some(ts(2019, 12, 4, 10, 2, 8)));
    assert_eq!(decode_date("Fri, 01 mAr 2019 00:00:00 +0000"), Some(ts(2019, 3, 1, 0, 0, 0)));
}

#[test]
fn decode_date_offset_is_applied() {
    assert_eq!(decode_date("Wed, 04 Dec 2019 10:02:08 +0130"), Some(ts(2019, 12, 4, 8, 32, 8)));
}

#[test]
fn decode_date_negative_offset_crosses_midnight() {
    assert_eq!(decode_date("Wed, 04 Dec 2019 23:30:00 -0100"), Some(ts(2019, 12, 5, 0, 30, 0)));
}

#[test]
fn decode_date_orders_across_zones() {
    let a = decode_date("Wed, 04 Dec 2019 10:00:00 +0200").unwrap();
    let b = decode_date("Wed, 04 Dec 2019 09:00:00 +0000").unwrap();
    assert_eq!(cli_mail::util::compare_date(&a, &b), std::cmp::Ordering::Less);
}

#[test]
fn decode_date_too_few_tokens() {
    assert_eq!(decode_date("Wed, 04 Dec 2019"), None);
    assert_eq!(decode_date("Wed, 04 Dec 2019 10:02:08"), None);
    assert_eq!(decode_date(""), None);
}

#[test]
fn decode_date_bad_fields() {
    assert_eq!(decode_date("Wed, 04 Foo 2019 10:02:08 +0000"), None);
    assert_eq!(decode_date("Wed, xx Dec 2019 10:02:08 +0000"), None);
    assert_eq!(decode_date("Wed, 04 Dec 2019 10:02 +0000"), None);
    assert_eq!(decode_date("Wed, 04 Dec 2019 10:02:08 GMT"), None);
}

#[test]
fn decode_date_out_of_calendar_range() {
    assert_eq!(decode_date("Thu, 31 Feb 2019 10:00:00 +0000"), None);
    assert_eq!(decode_date("Thu, 29 Feb 2019 10:00:00 +0000"), None);
    assert!(decode_date("Sat, 29 Feb 2020 10:00:00 +0000").is_some());
    assert_eq!(decode_date("Wed, 04 Dec 2019 25:00:00 +0000"), None);
    assert_eq!(decode_date("Wed, 04 Dec 2019 10:00:00 +2500"), None);
    assert_eq!(decode_date("Wed, 04 Dec 2019 10:00:00 +0075"), None);
}

#[test]
fn decode_plain_quoted_word_between_texts() {
    assert_eq!(decode(String::from("pre =?utf-8?q?a_b?= post")), "pre a b post");
}
