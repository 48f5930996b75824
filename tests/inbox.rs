use cli_mail::account::{Account, InboxConfig};
use cli_mail::inbox::{Inbox, InboxManager, Mail, MailBuilder};
use cli_mail::mail::{HeaderFields, MailHeader};
use cli_mail::mode::Mode;
use cli_mail::receiving::{AddressAlias, ReceivedMail};
use cli_mail::util::Timestamp;

fn account(name: &str, shortcut: Option<&str>) -> Account {
    Account::new(
        InboxConfig::new_imap(String::from("imap.x.com")),
        String::from("smtp.x.com"),
        String::from(name),
        String::from("secret"),
        shortcut.map(String::from),
    )
}

fn header(id: u32, date: Option<&str>, subject: &str) -> MailHeader {
    let mut m = HeaderFields::new();
    m.insert(String::from("Subject"), String::from(subject));
    if let Some(d) = date {
        m.insert(String::from("Date"), String::from(d));
    }
    MailHeader::new(id, m)
}

fn ids(inbox: &Inbox) -> Vec<u32> {
    inbox.mails.iter().map(|(p, _)| p.header.id).collect()
}

#[test]
fn refresh_without_connection_changes_nothing() {
    let mut inbox = Inbox::new(account("me", None));
    assert_eq!(inbox.refresh(Some(vec![header(1, None, "a"), header(2, None, "b")])), 2);
    inbox.open_mail(String::from("1"));
    let before = ids(&inbox);
    let cursor = inbox.opened_mail;
    assert_eq!(inbox.refresh(None), 0);
    assert_eq!(ids(&inbox), before);
    assert_eq!(inbox.opened_mail, cursor);
    assert_eq!(cursor, Some(2));
}

#[test]
fn refresh_keeps_newest_first() {
    let mut inbox = Inbox::new(account("me", None));
    let n = inbox.refresh(Some(vec![
        header(1, Some("Wed, 04 Dec 2019 10:02:08 +0000"), "old"),
        header(2, None, "undated"),
        header(3, Some("Fri, 06 Dec 2019 10:02:08 +0000"), "new"),
    ]));
    assert_eq!(n, 3);
    assert_eq!(ids(&inbox), vec![3, 1, 2]);
    let n = inbox.refresh(Some(vec![header(4, Some("Thu, 05 Dec 2019 10:02:08 +0000"), "mid")]));
    assert_eq!(n, 1);
    assert_eq!(ids(&inbox), vec![3, 4, 1, 2]);
    assert!(inbox.mails.iter().all(|(_, unread)| *unread));
}

#[test]
fn refresh_appends_duplicates() {
    let mut inbox = Inbox::new(account("me", None));
    inbox.refresh(Some(vec![header(1, None, "a")]));
    inbox.refresh(Some(vec![header(1, None, "a")]));
    assert_eq!(ids(&inbox), vec![1, 1]);
}

#[test]
fn open_mail_by_position_and_match() {
    let mut inbox = Inbox::new(account("me", None));
    inbox.refresh(Some(vec![
        header(1, Some("Wed, 04 Dec 2019 10:02:08 +0000"), "first"),
        header(2, Some("Thu, 05 Dec 2019 10:02:08 +0000"), "second"),
    ]));
    inbox.open_mail(String::from("1"));
    assert_eq!(inbox.opened_mail, Some(1));
    assert!(!inbox.mails[1].1);
    assert!(inbox.mails[0].1);
    inbox.open_mail(String::from("5"));
    assert_eq!(inbox.opened_mail, None);
    inbox.open_mail(String::from("05.12"));
    assert_eq!(inbox.opened_mail, Some(2));
    assert!(!inbox.mails[0].1);
}

#[test]
fn open_mail_in_empty_inbox() {
    let mut inbox = Inbox::new(account("me", None));
    inbox.open_mail(String::from("anything"));
    assert_eq!(inbox.opened_mail, None);
}

#[test]
fn opened_mail_is_fetched_once() {
    let mut inbox = Inbox::new(account("me", None));
    inbox.refresh(Some(vec![header(1, None, "a")]));
    assert!(inbox.get_opened_mail(None).is_none());
    inbox.open_mail(String::from("0"));
    assert_eq!(inbox.opened_index(), Some(0));
    let h = &inbox.mails[0].0.header;
    let fetched = h.mail_from_body(Some(String::from("hello")));
    let text = inbox.get_opened_mail(fetched).map(|m| m.text.clone());
    assert_eq!(text, Some(String::from("hello")));
    assert!(!inbox.mails[0].0.needs_fetch());
    let again = inbox.get_opened_mail(None).map(|m| m.text.clone());
    assert_eq!(again, Some(String::from("hello")));
}

#[test]
fn registry_keys_and_overwrite() {
    let mut m = InboxManager::new(String::from("accounts.yml"));
    m.load_accounts(vec![account("me", Some("w")), account("you", None), account("other", Some("w"))]);
    assert_eq!(m.accounts.len(), 2);
    assert!(m.open_inbox(String::from("you")));
    assert_eq!(m.get_opened_inbox().map(|i| i.get_account_name()), Some(String::from("you")));
    assert!(m.open_inbox(String::from("w")));
    assert_eq!(m.get_opened_inbox().map(|i| i.get_account_name()), Some(String::from("other")));
    assert!(!m.open_inbox(String::from("me")));
    assert_eq!(m.opened_inbox, Some(String::from("w")));
}

#[test]
fn account_from_fields() {
    let s = |x: &str| Some(String::from(x));
    let a = Account::from_fields(s("pop.x.com"), None, s("smtp"), s("me"), s("pw"), None).unwrap();
    assert!(matches!(a.inbox_domain, InboxConfig::Pop3(ref d, 995) if d == "pop.x.com"));
    assert_eq!(a.key(), "me");
    let a = Account::from_fields(None, s("imap.x.com"), s("smtp"), s("me"), s("pw"), s("m")).unwrap();
    assert!(matches!(a.inbox_domain, InboxConfig::Imap(ref d, 993) if d == "imap.x.com"));
    assert_eq!(a.key(), "m");
    let e = Account::from_fields(s("a"), s("b"), s("smtp"), s("me"), s("pw"), None).err();
    assert_eq!(e, Some(String::from("inbox_domain")));
    let e = Account::from_fields(None, None, s("smtp"), s("me"), s("pw"), None).err();
    assert_eq!(e, Some(String::from("inbox_domain")));
    let e = Account::from_fields(s("a"), None, None, s("me"), s("pw"), None).err();
    assert_eq!(e, Some(String::from("smtp_domain")));
    let e = Account::from_fields(s("a"), None, s("smtp"), None, s("pw"), None).err();
    assert_eq!(e, Some(String::from("name")));
    let e = Account::from_fields(s("a"), None, s("smtp"), s("me"), None, None).err();
    assert_eq!(e, Some(String::from("password")));
}

#[test]
fn builder_names_first_missing_field() {
    let b = MailBuilder::new();
    assert_eq!(b.build().err().map(|e| e.1), Some(String::from("from")));
    let mut b = MailBuilder::new();
    b.from(String::from("a")).to(vec![String::from("b")]);
    assert_eq!(b.build().err().map(|e| e.1), Some(String::from("subject")));
    let mut b = MailBuilder::new();
    b.from(String::from("a")).to(vec![String::from("b")]).subject(String::from("s"));
    assert_eq!(b.clone().build().err().map(|e| e.1), Some(String::from("text")));
    b.text(String::from("t"));
    let now = Timestamp { year: 2021, month: 6, day: 7, hour: 8, minute: 9, second: 10 };
    let m: Mail = b.build_at(now).ok().unwrap();
    assert_eq!(m.date, now);
    assert_eq!(m.get_info(), "a | s");
    assert!(m.cc.is_empty());
}

#[test]
fn reply_goes_back_to_sender() {
    let mail = ReceivedMail::new_plain(
        None,
        AddressAlias::WithAlias(String::from("Ann"), String::from("ann@x.com")),
        AddressAlias::OnlyAddress(String::from("me@x.com")),
        String::from("Lunch"),
        String::from("?"),
    );
    assert_eq!(mail.from.to_string(), "\"Ann\" <ann@x.com>");
    let r = mail.create_reply();
    assert_eq!(r.to, Some(vec![String::from("ann@x.com")]));
    assert_eq!(r.from, Some(String::from("me@x.com")));
    assert_eq!(r.subject, Some(String::from("Re: Lunch")));
    assert!(mail.get_info().starts_with("<date>               |  \"Ann\" <ann@x.com> "));
}

#[test]
fn prompt_per_mode() {
    assert_eq!(Mode::Global.get_prompt(Some(String::from("cli-mail-rs"))), (String::from("\"cli-mail-rs\"~>"), 1));
    assert_eq!(Mode::Inbox.get_prompt(None), (String::from("#"), 2));
    assert_eq!(Mode::Write.get_prompt(None), (String::from("\u{b5}"), 3));
    assert_eq!(Mode::Read.get_prompt(None), (String::from("\u{3bb}"), 4));
    assert_eq!(Mode::Exit.get_prompt(None), (String::new(), 0));
}

#[test]
fn mail_reply_skeleton() {
    let m = Mail {
        date: Timestamp { year: 2020, month: 1, day: 2, hour: 3, minute: 4, second: 5 },
        from: String::from("a@x.com"),
        to: vec![String::from("me@x.com"), String::from("c@x.com")],
        cc: Vec::new(),
        bcc: Vec::new(),
        subject: String::from("Hi"),
        text: String::from("body"),
    };
    let r = m.create_reply();
    assert_eq!(r.to, Some(vec![String::from("a@x.com")]));
    assert_eq!(r.from, Some(String::from("me@x.com")));
    assert_eq!(r.subject, Some(String::from("Re: Hi")));
    assert_eq!(r.text, None);
}

#[test]
fn build_without_date_takes_current_time() {
    let mut b = MailBuilder::new();
    b.from(String::from("a")).to(vec![String::from("b")]).subject(String::from("s")).text(String::from("t"));
    let m = b.build().ok().unwrap();
    assert!((1..=12).contains(&m.date.month));
    assert!(m.date.year >= 2020);
}
