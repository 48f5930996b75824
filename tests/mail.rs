use cli_mail::inbox::Mail;
use cli_mail::mail::{collect_headers, combine_searches, extract_mapping, HeaderFields, MailHeader, MailProxy};
use cli_mail::util::{fit_string_to_size, Timestamp};
use std::cmp::Ordering;

fn fields(pairs: &[(&str, &str)]) -> HeaderFields {
    let mut m = HeaderFields::new();
    for (k, v) in pairs {
        m.insert(String::from(*k), String::from(*v));
    }
    m
}

fn mail(from: &str, subject: &str) -> Mail {
    Mail {
        date: Timestamp { year: 2020, month: 1, day: 2, hour: 3, minute: 4, second: 5 },
        from: String::from(from),
        to: vec![String::from("b@x.com")],
        cc: Vec::new(),
        bcc: Vec::new(),
        subject: String::from(subject),
        text: String::from("body"),
    }
}

#[test]
fn header_from_field_map() {
    let map = fields(&[
        ("From", "a@x.com"),
        ("To", "b@x.com"),
        ("Subject", "=?UTF-8?q?Hi_there?="),
        ("Date", "Wed, 04 Dec 2019 10:02:08 +0000"),
    ]);
    let h = MailHeader::new(7, map);
    assert_eq!(h.id, 7);
    assert_eq!(h.subject, "Hi there");
    assert_eq!(h.from, "a@x.com");
    assert_eq!(h.to, "b@x.com");
    assert!(h.date.is_some());
    let expected = format!(
        "{} |  {} |  {}",
        fit_string_to_size(&String::from("04.12.2019, 10:02:08"), 20),
        fit_string_to_size(&String::from("a@x.com"), 60),
        fit_string_to_size(&String::from("Hi there"), 100)
    );
    let info = h.get_info();
    assert_eq!(info, expected);
    assert_eq!(info.chars().count(), 20 + 4 + 60 + 4 + 100);
    assert!(info.starts_with("04.12.2019, 10:02:08 |  a@x.com "));
}

#[test]
fn header_fallbacks() {
    let h = MailHeader::new(3, HeaderFields::new());
    assert_eq!(h.to, "<to>");
    assert_eq!(h.from, "<from>");
    assert_eq!(h.subject, "<subject>");
    assert_eq!(h.date, None);
    assert!(h.get_info().starts_with("<date>               |  <from>"));
}

#[test]
fn header_bad_date_gives_no_timestamp() {
    let h = MailHeader::new(3, fields(&[("Date", "yesterday")]));
    assert_eq!(h.date, None);
}

#[test]
fn header_subject_loses_line_breaks() {
    let h = MailHeader::new(1, fields(&[("Subject", "=?UTF-8?q?Hi?=\r\n =?UTF-8?q?_you?=")]));
    assert_eq!(h.subject, "Hi  you");
}

#[test]
fn field_map_later_value_wins() {
    let mut m = HeaderFields::new();
    m.insert(String::from("To"), String::from("a"));
    m.insert(String::from("To"), String::from("b"));
    assert_eq!(m.get("To"), Some(String::from("b")));
    assert_eq!(m.get("From"), None);
}

#[test]
fn extract_mapping_folds_lines() {
    let content = "From: a@x.com\r\nSubject: Hi\r\n there\r\nTo: b@x.com\r\n";
    let m = extract_mapping(String::from(content));
    assert_eq!(m.get("From"), Some(String::from("a@x.com")));
    assert_eq!(m.get("Subject"), Some(String::from("Hi\r\n there")));
    assert_eq!(m.get("To"), Some(String::from("b@x.com")));
    let h = MailHeader::from_fetch(5, String::from(content));
    assert_eq!(h.subject, "Hi there");
    assert_eq!(h.id, 5);
}

#[test]
fn extract_mapping_keeps_colons_in_values() {
    let m = extract_mapping(String::from("Date: Wed, 04 Dec 2019 10:12:38 +0000\r\n"));
    assert_eq!(m.get("Date"), Some(String::from("Wed, 04 Dec 2019 10:12:38 +0000")));
    let m = extract_mapping(String::from("X-Note:\t a:b\r\nTo:b@x.com\r\n"));
    assert_eq!(m.get("X-Note"), Some(String::from("a:b")));
    assert_eq!(m.get("To"), Some(String::from("b@x.com")));
    let h = MailHeader::from_fetch(1, String::from("Date: Wed, 04 Dec 2019 10:02:08 +0000\r\n"));
    assert_eq!(h.date, Some(Timestamp { year: 2019, month: 12, day: 4, hour: 10, minute: 2, second: 8 }));
}

#[test]
fn header_order_by_date() {
    let early = MailHeader::new(1, fields(&[("Date", "Wed, 04 Dec 2019 10:02:08 +0000")]));
    let late = MailHeader::new(2, fields(&[("Date", "Thu, 05 Dec 2019 09:00:00 +0000")]));
    let undated = MailHeader::new(3, HeaderFields::new());
    let undated2 = MailHeader::new(4, HeaderFields::new());
    assert_eq!(early.cmp(&late), Ordering::Less);
    assert_eq!(late.cmp(&early), Ordering::Greater);
    assert_eq!(early.cmp(&early), Ordering::Equal);
    assert_eq!(early.cmp(&undated), Ordering::Greater);
    assert_eq!(undated.cmp(&early), Ordering::Less);
    assert_eq!(undated.cmp(&undated2), Ordering::Equal);
}

#[test]
fn header_equality_by_number() {
    let a = MailHeader::new(1, fields(&[("Subject", "x")]));
    let b = MailHeader::new(1, fields(&[("Subject", "y")]));
    let c = MailHeader::new(2, fields(&[("Subject", "x")]));
    assert!(a == b);
    assert!(a != c);
}

#[test]
fn proxy_fetches_once() {
    let mut p = MailProxy::from_header(MailHeader::new(1, HeaderFields::new()));
    assert!(p.needs_fetch());
    let first = p.get_mail(Some(mail("a@x.com", "first"))).map(|m| m.subject.clone());
    assert_eq!(first, Some(String::from("first")));
    assert!(!p.needs_fetch());
    let second = p.get_mail(Some(mail("c@x.com", "second"))).map(|m| m.subject.clone());
    assert_eq!(second, Some(String::from("first")));
    assert_eq!(p.get_info(), "a@x.com | first");
}

#[test]
fn proxy_failed_fetch_keeps_nothing() {
    let mut p = MailProxy::from_header(MailHeader::new(1, HeaderFields::new()));
    assert!(p.get_mail(None).is_none());
    assert!(p.needs_fetch());
}

#[test]
fn to_mail_and_body() {
    let h = MailHeader::new(
        9,
        fields(&[("From", "a@x.com"), ("To", "b@x.com"), ("Subject", "Hi"), ("Date", "Wed, 04 Dec 2019 10:02:08 +0000")]),
    );
    assert!(h.mail_from_body(None).is_none());
    let m = h.mail_from_body(Some(String::from("text"))).unwrap();
    assert_eq!(m.from, "a@x.com");
    assert_eq!(m.to, vec![String::from("b@x.com")]);
    assert_eq!(m.subject, "Hi");
    assert_eq!(m.text, "text");
    assert_eq!(m.date, Timestamp { year: 2019, month: 12, day: 4, hour: 10, minute: 2, second: 8 });
}

#[test]
fn searches_combine_unread_first() {
    let r = combine_searches(vec![3, 4], vec![1]);
    assert_eq!(r, vec![(3, true), (4, true), (1, false)]);
}

#[test]
fn listing_fails_as_a_whole() {
    let ok = collect_headers(vec![(1, Some(String::from("Subject: a\r\n"))), (2, Some(String::new()))]);
    let ok = ok.unwrap();
    assert_eq!(ok.len(), 2);
    assert_eq!(ok[0].subject, "a");
    assert_eq!(ok[1].id, 2);
    let failed = collect_headers(vec![(1, Some(String::from("Subject: a\r\n"))), (2, None)]);
    assert!(failed.is_none());
}

#[test]
fn extract_mapping_folds_tab_indented_lines() {
    let m = extract_mapping(String::from("Subject: Hi\r\n\tthere\r\nTo: b@x.com\r\n"));
    assert_eq!(m.get("Subject"), Some(String::from("Hi\r\n\tthere")));
    assert_eq!(m.get("To"), Some(String::from("b@x.com")));
}
