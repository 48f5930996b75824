//! Received messages with their sender and recipients as addresses, the
//! headers that announce them, and the proxy that fetches them once.
use vstd::prelude::*;
use std::cmp::Ordering;
use crate::inbox::MailBuilder;
use crate::mail::{
    date_order, extract_mapping, header_from, header_pairs, info_line, pairs_map, HeaderFields,
};
use crate::util::{compare_date, fit_string_to_size, format_date, Timestamp};
use mime::Mime;

verus! {

#[verifier::external_type_specification]
#[verifier::external_body]
pub struct ExMime(Mime);

/// The summary line of a message (see `info_line`).
pub fn display_info_from(date: &Option<Timestamp>, from: &String, subject: &String) -> (r: String)
    ensures
        r@ == info_line(*date, from@, subject@),
{
    let d = match date {
        Some(t) => format_date(t),
        None => String::from_str("<date>"),
    };
    let mut r = fit_string_to_size(&d, 20);
    r.append(" |  ");
    let f = fit_string_to_size(from, 60);
    r.append(f.as_str());
    r.append(" |  ");
    let s = fit_string_to_size(subject, 100);
    r.append(s.as_str());
    r
}

/// An address, with or without a display name.
#[derive(Clone)]
pub enum AddressAlias {
    WithAlias(String, String),
    OnlyAddress(String),
}

/// How an address is written: `"alias" <address>`, or the bare address.
pub open spec fn address_text(a: AddressAlias) -> Seq<char> {
    match a {
        AddressAlias::WithAlias(alias, addr) => "\""@ + alias@ + "\" <"@ + addr@ + ">"@,
        AddressAlias::OnlyAddress(addr) => addr@,
    }
}

pub open spec fn address_of(a: AddressAlias) -> Seq<char> {
    match a {
        AddressAlias::WithAlias(_, addr) => addr@,
        AddressAlias::OnlyAddress(addr) => addr@,
    }
}

impl AddressAlias {
    pub fn to_string(&self) -> (r: String)
        ensures
            r@ == address_text(*self),
    {
        match self {
            AddressAlias::WithAlias(alias, addr) => {
                let mut r = String::new();
                r.append("\"");
                r.append(alias.as_str());
                r.append("\" <");
                r.append(addr.as_str());
                r.append(">");
                r
            },
            AddressAlias::OnlyAddress(addr) => addr.clone(),
        }
    }

    pub fn get_address(&self) -> (r: String)
        ensures
            r@ == address_of(*self),
    {
        match self {
            AddressAlias::WithAlias(_, addr) => addr.clone(),
            AddressAlias::OnlyAddress(addr) => addr.clone(),
        }
    }
}

/// A received message.
pub struct ReceivedMail {
    pub date: Option<Timestamp>,
    pub from: AddressAlias,
    pub to: AddressAlias,
    pub cc: Vec<AddressAlias>,
    pub bcc: Vec<AddressAlias>,
    pub subject: String,
    pub text: String,
    pub html: String,
    pub attachments: Vec<String>,
}

impl ReceivedMail {
    /// Reading a message out of a MIME document is not supported: the result
    /// is always `None`.
    pub fn from_mime(mime: &Mime) -> (r: Option<ReceivedMail>)
        ensures
            r is None,
    {
        None
    }

    /// A plain-text message with no copies, no HTML part and no attachments.
    pub fn new_plain(
        date: Option<Timestamp>,
        from: AddressAlias,
        to: AddressAlias,
        subject: String,
        text: String,
    ) -> (r: ReceivedMail)
        ensures
            r.date == date,
            r.from == from,
            r.to == to,
            r.subject == subject,
            r.text == text,
            r.cc@.len() == 0,
            r.bcc@.len() == 0,
            r.html@.len() == 0,
            r.attachments@.len() == 0,
    {
        ReceivedMail {
            date,
            from,
            to,
            cc: Vec::new(),
            bcc: Vec::new(),
            subject,
            text,
            html: String::new(),
            attachments: Vec::new(),
        }
    }

    pub fn get_info(&self) -> (r: String)
        ensures
            r@ == info_line(self.date, address_text(self.from), self.subject@),
    {
        let from = self.from.to_string();
        display_info_from(&self.date, &from, &self.subject)
    }

    /// A reply: to this message's sender, from its recipient, subject `Re: `
    /// followed by this message's subject.
    pub fn create_reply(&self) -> (r: MailBuilder)
        ensures
            r.to matches Some(v) && v@.len() == 1 && v@[0]@ == address_of(self.from),
            r.from matches Some(f) && f@ == address_of(self.to),
            r.subject matches Some(s) && s@ == "Re: "@ + self.subject@,
            r.date is None,
            r.cc is None,
            r.bcc is None,
            r.text is None,
    {
        let mut builder = MailBuilder::new();
        let mut to: Vec<String> = Vec::new();
        to.push(self.from.get_address());
        builder.to(to);
        builder.from(self.to.get_address());
        let mut subject = String::from_str("Re: ");
        subject.append(self.subject.as_str());
        builder.subject(subject);
        builder
    }
}

/// Summary of one received message, as `MailHeader` is for a listed one.
pub struct ReceivedMailHeader {
    pub id: u32,
    pub to: String,
    pub from: String,
    pub date: Option<Timestamp>,
    pub subject: String,
}

impl PartialEq for ReceivedMailHeader {
    fn eq(&self, other: &ReceivedMailHeader) -> (r: bool)
        ensures
            r == (self.id == other.id),
    {
        self.id == other.id
    }
}

impl vstd::std_specs::cmp::PartialEqSpecImpl for ReceivedMailHeader {
    open spec fn obeys_eq_spec() -> bool {
        true
    }

    open spec fn eq_spec(&self, other: &ReceivedMailHeader) -> bool {
        self.id == other.id
    }
}

impl ReceivedMailHeader {
    /// What this header holds: number, recipient, sender, date and subject.
    pub open spec fn view(self) -> (u32, Seq<char>, Seq<char>, Option<Timestamp>, Seq<char>) {
        (self.id, self.to@, self.from@, self.date, self.subject@)
    }

    /// Builds a header from the fields of a message (see `header_from`).
    pub fn new(id: u32, map: HeaderFields) -> (r: ReceivedMailHeader)
        ensures
            r.view() == header_from(id, map.view()),
    {
        let h = crate::mail::MailHeader::new(id, map);
        ReceivedMailHeader { id: h.id, to: h.to, from: h.from, date: h.date, subject: h.subject }
    }

    /// Builds a header from the header block fetched for message `seq`.
    pub fn from_fetch(seq: u32, content: String) -> (r: ReceivedMailHeader)
        ensures
            r.view() == header_from(seq, pairs_map(header_pairs(content@))),
    {
        let map = extract_mapping(content);
        ReceivedMailHeader::new(seq, map)
    }

    pub fn get_info(&self) -> (r: String)
        ensures
            r@ == info_line(self.date, self.from@, self.subject@),
    {
        display_info_from(&self.date, &self.from, &self.subject)
    }

    /// Orders headers by date (see `date_order`).
    pub fn cmp(&self, other: &ReceivedMailHeader) -> (r: Ordering)
        ensures
            r == date_order(self.date, other.date),
    {
        match (self.date, other.date) {
            (Some(own_date), Some(other_date)) => compare_date(&own_date, &other_date),
            (Some(_), None) => Ordering::Greater,
            (None, Some(_)) => Ordering::Less,
            (None, None) => Ordering::Equal,
        }
    }
}

/// A received message's header and, once fetched, the message itself.
pub struct ReceivedMailProxy {
    pub header: Option<Box<ReceivedMailHeader>>,
    pub mail: Option<Box<ReceivedMail>>,
}

impl ReceivedMailProxy {
    pub fn from_header(header: ReceivedMailHeader) -> (r: ReceivedMailProxy)
        ensures
            r.header matches Some(h) && *h == header,
            r.mail is None,
    {
        ReceivedMailProxy { header: Some(Box::new(header)), mail: None }
    }

    /// The summary of the message where it is held, else of the header, else
    /// nothing.
    pub fn get_info(&self) -> (r: String)
        ensures
            r@ == (match (self.mail, self.header) {
                (Some(m), _) => info_line(m.date, address_text(m.from), m.subject@),
                (None, Some(h)) => info_line(h.date, h.from@, h.subject@),
                (None, None) => Seq::empty(),
            }),
    {
        if let Some(mail) = &self.mail {
            mail.get_info()
        } else if let Some(header) = &self.header {
            header.get_info()
        } else {
            String::new()
        }
    }

    /// Whether the message still has to be fetched: it is not held and there
    /// is a header to fetch it by.
    pub fn needs_fetch(&self) -> (r: bool)
        ensures
            r == (self.mail is None && self.header is Some),
    {
        self.mail.is_none() && self.header.is_some()
    }

    /// The message: the one held, or else (where there is a header) `fetched`,
    /// which is kept from then on.
    pub fn get_mail(&mut self, fetched: Option<ReceivedMail>) -> (r: Option<&ReceivedMail>)
        ensures
            final(self).header == old(self).header,
            old(self).mail is Some ==> final(self).mail == old(self).mail,
            old(self).mail is None && old(self).header is Some ==> (match fetched {
                Some(m) => final(self).mail matches Some(b) && *b == m,
                None => final(self).mail is None,
            }),
            old(self).mail is None && old(self).header is None ==> final(self).mail is None,
            r matches Some(m) ==> (final(self).mail matches Some(b) && *b == *m),
            r is None ==> final(self).mail is None,
    {
        if self.mail.is_none() && self.header.is_some() {
            self.mail = match fetched {
                Some(m) => Some(Box::new(m)),
                None => None,
            };
        }
        match &self.mail {
            Some(m) => Some(&**m),
            None => None,
        }
    }

    /// Orders proxies by their headers' dates; a proxy without a header orders
    /// as an undated one.
    pub fn cmp(&self, other: &ReceivedMailProxy) -> (r: Ordering)
        ensures
            r == date_order(
                match self.header {
                    Some(h) => h.date,
                    None => None,
                },
                match other.header {
                    Some(h) => h.date,
                    None => None,
                },
            ),
    {
        let a = match &self.header {
            Some(h) => h.date,
            None => None,
        };
        let b = match &other.header {
            Some(h) => h.date,
            None => None,
        };
        match (a, b) {
            (Some(x), Some(y)) => compare_date(&x, &y),
            (Some(_), None) => Ordering::Greater,
            (None, Some(_)) => Ordering::Less,
            (None, None) => Ordering::Equal,
        }
    }
}

} // verus!
