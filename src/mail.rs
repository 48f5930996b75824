//! Message headers, the lazy proxy that fetches a full message once, and the
//! header block parser.
use vstd::prelude::*;
use std::cmp::Ordering;
use crate::decoder::{date_of, decode, decode_date, decoded};
use crate::inbox::{Mail, MailBuilder};
use crate::text::{push_char, same_text, string_of, to_chars, trim_end, trimmed_end};
use crate::util::{
    compare_date, date_text, field_seq, fitted, int_cmp,
    lemma_lex_cmp_antisym, lemma_lex_cmp_trans, lemma_lex_cmp_trans_le, lemma_timestamp_cmp_fields,
    timestamp_cmp, Timestamp,
};

verus! {

/// The value of the last entry of `s` with key `k`.
pub open spec fn lookup(s: Seq<(Seq<char>, Seq<char>)>, k: Seq<char>) -> Option<Seq<char>>
    decreases s.len(),
{
    if s.len() == 0 {
        None
    } else if s.last().0 == k {
        Some(s.last().1)
    } else {
        lookup(s.drop_last(), k)
    }
}

proof fn lemma_lookup_push(s: Seq<(Seq<char>, Seq<char>)>, x: (Seq<char>, Seq<char>), k: Seq<char>)
    ensures
        lookup(s.push(x), k) == if x.0 == k {
            Some(x.1)
        } else {
            lookup(s, k)
        },
{
    assert(s.push(x).drop_last() =~= s);
}

/// The map that a list of entries gives, a later entry under a key replacing
/// an earlier one.
pub open spec fn pairs_map(s: Seq<(Seq<char>, Seq<char>)>) -> Map<Seq<char>, Seq<char>> {
    Map::new(|k: Seq<char>| lookup(s, k) is Some, |k: Seq<char>| lookup(s, k)->Some_0)
}

/// The named fields of a message header; a later entry under a key replaces
/// an earlier one.
pub struct HeaderFields {
    entries: Vec<(String, String)>,
}

impl HeaderFields {
    /// The entries in the order they were inserted.
    pub closed spec fn pairs(self) -> Seq<(Seq<char>, Seq<char>)> {
        self.entries@.map_values(|e: (String, String)| (e.0@, e.1@))
    }

    pub open spec fn view(self) -> Map<Seq<char>, Seq<char>> {
        pairs_map(self.pairs())
    }

    pub fn new() -> (r: HeaderFields)
        ensures
            r.pairs() == Seq::<(Seq<char>, Seq<char>)>::empty(),
            r.view() == Map::<Seq<char>, Seq<char>>::empty(),
    {
        let r = HeaderFields { entries: Vec::new() };
        assert(r.pairs() =~= Seq::<(Seq<char>, Seq<char>)>::empty());
        assert(r.view() =~= Map::<Seq<char>, Seq<char>>::empty());
        r
    }

    /// Sets the field `key` to `value`.
    pub fn insert(&mut self, key: String, value: String)
        ensures
            final(self).pairs() == old(self).pairs().push((key@, value@)),
            final(self).view() == old(self).view().insert(key@, value@),
    {
        let ghost k = key@;
        let ghost v = value@;
        self.entries.push((key, value));
        assert(final(self).pairs() =~= old(self).pairs().push((k, v)));
        assert forall|q: Seq<char>| #![auto]
            lookup(final(self).pairs(), q) == if q == k {
                Some(v)
            } else {
                lookup(old(self).pairs(), q)
            } by {
            lemma_lookup_push(old(self).pairs(), (k, v), q);
        }
        assert(final(self).view() =~= old(self).view().insert(k, v));
    }

    /// The value of the field `key`.
    pub fn get(&self, key: &str) -> (r: Option<String>)
        ensures
            r matches Some(v) ==> self.view().contains_key(key@) && v@ == self.view()[key@],
            r is None ==> !self.view().contains_key(key@),
    {
        let mut i = self.entries.len();
        assert(self.pairs().take(i as int) =~= self.pairs());
        while i > 0
            invariant
                i <= self.entries@.len(),
                lookup(self.pairs(), key@) == lookup(self.pairs().take(i as int), key@),
            decreases i,
        {
            let ghost t = self.pairs().take(i as int);
            assert(t.drop_last() =~= self.pairs().take(i - 1));
            assert(t.last() == (self.entries@[i - 1].0@, self.entries@[i - 1].1@));
            if same_text(self.entries[i - 1].0.as_str(), key) {
                return Some(self.entries[i - 1].1.clone());
            }
            i = i - 1;
        }
        None
    }
}


/// The header scanner's state after `s`: the fields read so far, the key
/// being read, the value being read, whether a key is being read, and the
/// last character seen.
pub open spec fn scan(s: Seq<char>) -> (Seq<(Seq<char>, Seq<char>)>, Seq<char>, Seq<char>, bool, char)
    decreases s.len(),
{
    if s.len() == 0 {
        (seq![], seq![], seq![], true, '0')
    } else {
        let (fields, key, val, searching, prev) = scan(s.drop_last());
        let c = s.last();
        if searching {
            if c == ':' {
                (fields, key, val, false, c)
            } else {
                (fields, key.push(c), val, true, c)
            }
        } else if prev == '\n' && c != ' ' && c != '\t' {
            (fields.push((key, trimmed_end(val))), seq![c], seq![], true, c)
        } else if val.len() == 0 && (c == ' ' || c == '\t') {
            (fields, key, val, false, c)
        } else {
            (fields, key, val.push(c), false, c)
        }
    }
}

/// The fields of a header block: a key runs up to its first `:`, the value is
/// the rest of the line without the spaces and tabs right after that `:`, a
/// line that starts with a space or a tab continues the value, any other line
/// starts a new key; values lose their trailing whitespace.
pub open spec fn header_pairs(s: Seq<char>) -> Seq<(Seq<char>, Seq<char>)> {
    let (fields, key, val, searching, prev) = scan(s);
    fields.push((key, trimmed_end(val)))
}

fn insert_field(fields: &mut HeaderFields, key: &Vec<char>, val: &Vec<char>)
    ensures
        final(fields).pairs() == old(fields).pairs().push((key@, trimmed_end(val@))),
{
    let k = string_of(key.as_slice());
    let v = trim_end(val);
    let v = string_of(v.as_slice());
    fields.insert(k, v);
}

/// Parses a header block into its fields (see `header_pairs`).
pub fn extract_mapping(content: String) -> (r: HeaderFields)
    ensures
        r.pairs() == header_pairs(content@),
{
    let chars = to_chars(content.as_str());
    let mut map = HeaderFields::new();
    let mut buf_key: Vec<char> = Vec::new();
    let mut buf_val: Vec<char> = Vec::new();
    let mut search_key = true;
    let mut prev = '0';
    let mut i: usize = 0;
    while i < chars.len()
        invariant
            i <= chars@.len(),
            chars@ == content@,
            scan(chars@.take(i as int)) == (map.pairs(), buf_key@, buf_val@, search_key, prev),
        decreases chars@.len() - i,
    {
        let c = chars[i];
        let ghost t = chars@.take(i as int + 1);
        assert(t.drop_last() =~= chars@.take(i as int));
        assert(t.last() == c);
        if search_key {
            if c == ':' {
                search_key = false;
            } else {
                buf_key.push(c);
            }
        } else {
            if prev == '\n' && c != ' ' && c != '\t' {
                insert_field(&mut map, &buf_key, &buf_val);
                buf_key = Vec::new();
                buf_val = Vec::new();
                search_key = true;
                buf_key.push(c);
                assert(buf_key@ =~= seq![c]);
                assert(buf_val@ =~= Seq::<char>::empty());
            } else if !(buf_val.len() == 0 && (c == ' ' || c == '\t')) {
                buf_val.push(c);
            }
        }
        prev = c;
        i = i + 1;
    }
    assert(chars@.take(i as int) =~= content@);
    insert_field(&mut map, &buf_key, &buf_val);
    map
}

/// `s` without line feeds and carriage returns.
pub open spec fn without_breaks(s: Seq<char>) -> Seq<char>
    decreases s.len(),
{
    if s.len() == 0 {
        seq![]
    } else if s.last() == '\n' || s.last() == '\r' {
        without_breaks(s.drop_last())
    } else {
        without_breaks(s.drop_last()).push(s.last())
    }
}

fn strip_breaks(s: &String) -> (r: String)
    ensures
        r@ == without_breaks(s@),
{
    let chars = to_chars(s.as_str());
    let mut r = String::new();
    let mut i: usize = 0;
    while i < chars.len()
        invariant
            i <= chars@.len(),
            chars@ == s@,
            r@ == without_breaks(chars@.take(i as int)),
        decreases chars@.len() - i,
    {
        let c = chars[i];
        let ghost t = chars@.take(i as int + 1);
        assert(t.drop_last() =~= chars@.take(i as int));
        assert(t.last() == c);
        if c != '\n' && c != '\r' {
            push_char(&mut r, c);
        }
        i = i + 1;
    }
    assert(chars@.take(i as int) =~= s@);
    r
}

/// The value of `k` in `m`, or `d` where `m` has none.
pub open spec fn field_or(m: Map<Seq<char>, Seq<char>>, k: Seq<char>, d: Seq<char>) -> Seq<char> {
    if m.contains_key(k) {
        m[k]
    } else {
        d
    }
}

/// The order of headers by their dates: earlier is less, a dated header is
/// greater than an undated one, two undated headers are equal.
pub open spec fn date_order(a: Option<Timestamp>, b: Option<Timestamp>) -> Ordering {
    match (a, b) {
        (Some(x), Some(y)) => timestamp_cmp(x, y),
        (Some(_), None) => Ordering::Greater,
        (None, Some(_)) => Ordering::Less,
        (None, None) => Ordering::Equal,
    }
}

/// One summary line: date, sender and subject in columns of 20, 60 and 100
/// characters.
pub open spec fn info_line(date: Option<Timestamp>, from: Seq<char>, subject: Seq<char>) -> Seq<char> {
    let d = match date {
        Some(t) => date_text(t),
        None => "<date>"@,
    };
    fitted(d, 20) + " |  "@ + fitted(from, 60) + " |  "@ + fitted(subject, 100)
}

/// What a header built from the fields `m` holds: number, recipient, sender,
/// date and subject. `To`, `From` and `Subject` fall back to `<to>`, `<from>`
/// and `<subject>`; the subject loses its line breaks and has its encoded words
/// decoded; the date is read from `Date` where it is there and reads.
pub open spec fn header_from(id: u32, m: Map<Seq<char>, Seq<char>>) -> (
    u32,
    Seq<char>,
    Seq<char>,
    Option<Timestamp>,
    Seq<char>,
) {
    (
        id,
        field_or(m, "To"@, "<to>"@),
        field_or(m, "From"@, "<from>"@),
        if m.contains_key("Date"@) {
            date_of(m["Date"@])
        } else {
            None
        },
        decoded(
            if m.contains_key("Subject"@) {
                without_breaks(m["Subject"@])
            } else {
                "<subject>"@
            },
        ),
    )
}

pub open spec fn header_view(h: MailHeader) -> (u32, Seq<char>, Seq<char>, Option<Timestamp>, Seq<char>) {
    (h.id, h.to@, h.from@, h.date, h.subject@)
}

/// Summary of one message: its sequence number, participants, decoded
/// subject and date.
pub struct MailHeader {
    pub id: u32,
    pub to: String,
    pub from: String,
    pub date: Option<Timestamp>,
    pub subject: String,
}

impl PartialEq for MailHeader {
    fn eq(&self, other: &MailHeader) -> (r: bool)
        ensures
            r == (self.id == other.id),
    {
        self.id == other.id
    }
}

impl vstd::std_specs::cmp::PartialEqSpecImpl for MailHeader {
    open spec fn obeys_eq_spec() -> bool {
        true
    }

    open spec fn eq_spec(&self, other: &MailHeader) -> bool {
        self.id == other.id
    }
}

impl MailHeader {
    /// Builds a header from the fields of a message: `To`, `From` and
    /// `Subject` fall back to `<to>`, `<from>` and `<subject>`; the subject
    /// loses its line breaks and has its encoded words decoded; the date is
    /// read from `Date` where it is there and reads.
    pub fn new(id: u32, map: HeaderFields) -> (r: MailHeader)
        ensures
            header_view(r) == header_from(id, map.view()),
    {
        let to = match map.get("To") {
            Some(v) => v,
            None => String::from_str("<to>"),
        };
        let from = match map.get("From") {
            Some(v) => v,
            None => String::from_str("<from>"),
        };
        let date = match map.get("Date") {
            Some(date_str) => decode_date(date_str.as_str()),
            None => None,
        };
        let raw = match map.get("Subject") {
            Some(v) => strip_breaks(&v),
            None => String::from_str("<subject>"),
        };
        let subject = decode(raw);
        MailHeader { id, to, from, date, subject }
    }

    /// Builds a header from the header block fetched for message `seq`.
    pub fn from_fetch(seq: u32, content: String) -> (r: MailHeader)
        ensures
            header_view(r) == header_from(seq, pairs_map(header_pairs(content@))),
    {
        let map = extract_mapping(content);
        MailHeader::new(seq, map)
    }

    /// A reply skeleton's starting point: this header's date, sender, subject
    /// and recipient.
    pub fn to_mail(&self) -> (r: MailBuilder)
        ensures
            r.date == self.date,
            r.from == Some(self.from),
            r.subject == Some(self.subject),
            r.to matches Some(v) && v@.len() == 1 && v@[0] == self.to,
            r.cc is None,
            r.bcc is None,
            r.text is None,
    {
        let mut builder = MailBuilder::new();
        if let Some(date) = self.date {
            builder.date(date);
        }
        builder.from(self.from.clone());
        builder.subject(self.subject.clone());
        let mut to: Vec<String> = Vec::new();
        to.push(self.to.clone());
        builder.to(to);
        builder
    }

    /// The summary line of this header (see `info_line`).
    pub fn get_info(&self) -> (r: String)
        ensures
            r@ == info_line(self.date, self.from@, self.subject@),
    {
        crate::receiving::display_info_from(&self.date, &self.from, &self.subject)
    }

    /// Orders headers by date (see `date_order`).
    pub fn cmp(&self, other: &MailHeader) -> (r: Ordering)
        ensures
            r == date_order(self.date, other.date),
    {
        match (self.date, other.date) {
            (Some(own_date), Some(other_date)) => compare_date(&own_date, &other_date),
            (Some(_), None) => Ordering::Greater,
            (None, Some(_)) => Ordering::Less,
            (None, None) => Ordering::Equal,
        }
    }
}


/// What a proxy holds after `get_mail` was handed `fetched`: a message once
/// held stays, otherwise the fetched one is taken.
pub open spec fn kept_or_fetched(held: Option<Mail>, fetched: Option<Mail>) -> Option<Mail> {
    if held is Some {
        held
    } else {
        fetched
    }
}

/// A header and, once fetched, the full message, which is kept from then on.
pub struct MailProxy {
    pub header: MailHeader,
    pub mail: Option<Mail>,
}

impl MailProxy {
    pub fn from_header(header: MailHeader) -> (r: MailProxy)
        ensures
            r.header == header,
            r.mail is None,
    {
        MailProxy { header, mail: None }
    }

    /// The summary of the full message where it is held, else of the header.
    pub fn get_info(&self) -> (r: String)
        ensures
            r@ == (match self.mail {
                Some(m) => m.from@ + " | "@ + m.subject@,
                None => info_line(self.header.date, self.header.from@, self.header.subject@),
            }),
    {
        match &self.mail {
            Some(mail) => mail.get_info(),
            None => self.header.get_info(),
        }
    }

    /// Whether the full message still has to be fetched.
    pub fn needs_fetch(&self) -> (r: bool)
        ensures
            r == (self.mail is None),
    {
        self.mail.is_none()
    }

    /// The full message: the one held, or else `fetched` (what the mailbox
    /// connection returned for this header), which is kept from then on.
    pub fn get_mail(&mut self, fetched: Option<Mail>) -> (r: Option<&Mail>)
        ensures
            final(self).header == old(self).header,
            final(self).mail == kept_or_fetched(old(self).mail, fetched),
            r matches Some(m) ==> final(self).mail == Some(*m),
            r is None ==> final(self).mail is None,
    {
        if self.mail.is_none() {
            self.mail = fetched;
        }
        self.mail.as_ref()
    }

    /// Orders proxies by their headers' dates.
    pub fn cmp(&self, other: &MailProxy) -> (r: Ordering)
        ensures
            r == date_order(self.header.date, other.header.date),
    {
        self.header.cmp(&other.header)
    }
}

impl PartialEq for MailProxy {
    fn eq(&self, other: &MailProxy) -> (r: bool)
        ensures
            r == (self.header.id == other.header.id),
    {
        self.header == other.header
    }
}

impl vstd::std_specs::cmp::PartialEqSpecImpl for MailProxy {
    open spec fn obeys_eq_spec() -> bool {
        true
    }

    open spec fn eq_spec(&self, other: &MailProxy) -> bool {
        self.header.id == other.header.id
    }
}

/// Once a proxy holds a message, asking for it again takes nothing from the
/// connection and gives the same message back.
pub proof fn lemma_get_mail_memoizes(held: Option<Mail>, first: Option<Mail>, second: Option<Mail>)
    requires
        kept_or_fetched(held, first) is Some,
    ensures
        kept_or_fetched(kept_or_fetched(held, first), second) == kept_or_fetched(held, first),
{
}


/// For two dated headers, the order is that of their dates compared field by
/// field: year, month, day, hour, minute, second.
pub proof fn lemma_header_order_fields(a: MailHeader, b: MailHeader)
    requires
        a.date is Some,
        b.date is Some,
    ensures
        ({
            let (x, y) = (a.date->Some_0, b.date->Some_0);
            date_order(a.date, b.date) == if x.year != y.year {
                int_cmp(x.year as int, y.year as int)
            } else if x.month != y.month {
                int_cmp(x.month as int, y.month as int)
            } else if x.day != y.day {
                int_cmp(x.day as int, y.day as int)
            } else if x.hour != y.hour {
                int_cmp(x.hour as int, y.hour as int)
            } else if x.minute != y.minute {
                int_cmp(x.minute as int, y.minute as int)
            } else if x.second != y.second {
                int_cmp(x.second as int, y.second as int)
            } else {
                Ordering::Equal
            }
        }),
{
    lemma_timestamp_cmp_fields(a.date->Some_0, b.date->Some_0);
}

/// A dated header orders after an undated one, whichever way round the two
/// are compared.
pub proof fn lemma_dated_after_undated(a: MailHeader, b: MailHeader)
    requires
        a.date is Some,
        b.date is None,
    ensures
        date_order(a.date, b.date) == Ordering::Greater,
        date_order(b.date, a.date) == Ordering::Less,
{
}

/// Comparing the other way round gives the mirrored result.
pub proof fn lemma_date_order_antisym(a: Option<Timestamp>, b: Option<Timestamp>)
    ensures
        date_order(a, b) == Ordering::Less <==> date_order(b, a) == Ordering::Greater,
        date_order(a, b) == Ordering::Equal <==> date_order(b, a) == Ordering::Equal,
{
    if a is Some && b is Some {
        lemma_lex_cmp_antisym(field_seq(a->Some_0), field_seq(b->Some_0));
    }
}

/// The order of dates is transitive.
pub proof fn lemma_date_order_trans(a: Option<Timestamp>, b: Option<Timestamp>, c: Option<Timestamp>)
    ensures
        date_order(a, b) != Ordering::Greater && date_order(b, c) == Ordering::Less ==> date_order(
            a,
            c,
        ) == Ordering::Less,
        date_order(a, b) != Ordering::Greater && date_order(b, c) != Ordering::Greater
            ==> date_order(a, c) != Ordering::Greater,
{
    if a is Some && b is Some && c is Some {
        let (x, y, z) = (field_seq(a->Some_0), field_seq(b->Some_0), field_seq(c->Some_0));
        if lex_le(x, y) && lex_cmp_is_less(y, z) {
            lemma_lex_cmp_trans(x, y, z);
        }
        if lex_le(x, y) && lex_le(y, z) {
            lemma_lex_cmp_trans_le(x, y, z);
        }
    }
}

spec fn lex_le(x: Seq<int>, y: Seq<int>) -> bool {
    crate::util::lex_cmp(x, y) != Ordering::Greater
}

spec fn lex_cmp_is_less(x: Seq<int>, y: Seq<int>) -> bool {
    crate::util::lex_cmp(x, y) == Ordering::Less
}


/// The message numbers an inbox listing fetches, in order: the unread ones
/// (tagged `true`), then the read ones (tagged `false`).
pub fn combine_searches(unread: Vec<u32>, seen: Vec<u32>) -> (r: Vec<(u32, bool)>)
    ensures
        r@ == unread@.map_values(|x: u32| (x, true)) + seen@.map_values(|x: u32| (x, false)),
{
    let mut r: Vec<(u32, bool)> = Vec::new();
    let mut i: usize = 0;
    while i < unread.len()
        invariant
            i <= unread@.len(),
            r@ == unread@.take(i as int).map_values(|x: u32| (x, true)),
        decreases unread@.len() - i,
    {
        r.push((unread[i], true));
        i = i + 1;
        assert(r@ =~= unread@.take(i as int).map_values(|x: u32| (x, true)));
    }
    assert(unread@.take(i as int) =~= unread@);
    let mut j: usize = 0;
    while j < seen.len()
        invariant
            j <= seen@.len(),
            r@ == unread@.map_values(|x: u32| (x, true)) + seen@.take(j as int).map_values(
                |x: u32| (x, false),
            ),
        decreases seen@.len() - j,
    {
        r.push((seen[j], false));
        j = j + 1;
        assert(r@ =~= unread@.map_values(|x: u32| (x, true)) + seen@.take(j as int).map_values(
            |x: u32| (x, false),
        ));
    }
    assert(seen@.take(j as int) =~= seen@);
    r
}

/// The headers of a listing from the header blocks fetched for it, in order;
/// `None` where any fetch failed (`None` in its place), so that nothing of a
/// failed listing is kept.
pub fn collect_headers(fetched: Vec<(u32, Option<String>)>) -> (r: Option<Vec<MailHeader>>)
    ensures
        (exists|i: int| 0 <= i < fetched@.len() && (#[trigger] fetched@[i]).1 is None) ==> r is None,
        (forall|i: int| 0 <= i < fetched@.len() ==> (#[trigger] fetched@[i]).1 is Some) ==> (r matches Some(v) && v@.len() == fetched@.len() && forall|i: int|
            0 <= i < v@.len() ==> header_view(#[trigger] v@[i]) == header_from(
                fetched@[i].0,
                pairs_map(header_pairs(fetched@[i].1->Some_0@)),
            )),
{
    let ghost orig = fetched@;
    let total = fetched.len();
    let mut v = fetched;
    let mut out: Vec<MailHeader> = Vec::new();
    let mut k: usize = 0;
    while v.len() > 0
        invariant
            k <= orig.len() == total,
            v@ == orig.skip(k as int),
            orig == fetched@,
            out@.len() == k,
            forall|i: int|
                0 <= i < k ==> (#[trigger] orig[i]).1 is Some && header_view(out@[i]) == header_from(
                    orig[i].0,
                    pairs_map(header_pairs(orig[i].1->Some_0@)),
                ),
        decreases v@.len(),
    {
        assert(k < orig.len());
        let (seq, content) = v.remove(0);
        assert(orig[k as int] == (seq, content));
        assert(v@ =~= orig.skip(k + 1));
        match content {
            Some(text) => {
                out.push(MailHeader::from_fetch(seq, text));
            },
            None => {
                return None;
            },
        }
        k = k + 1;
    }
    assert(k == orig.len());
    Some(out)
}

impl MailHeader {
    /// The full message from the body text fetched for this header: the
    /// header's date, sender, subject and recipient with that text, and no
    /// copies or blind copies; `None` where no text came (the text is a
    /// required field).
    pub fn mail_from_body(&self, body: Option<String>) -> (r: Option<Mail>)
        ensures
            body is None ==> r is None,
            body matches Some(t) ==> (r matches Some(m) && m.from == self.from && m.subject
                == self.subject && m.to@.len() == 1 && m.to@[0] == self.to && m.text == t && m.cc@.len() == 0
                && m.bcc@.len() == 0 && (self.date matches Some(d) ==> m.date == d)),
    {
        let mut builder = self.to_mail();
        if let Some(text) = body {
            builder.text(text);
        }
        match builder.build() {
            Ok(mail) => Some(mail),
            Err(_) => None,
        }
    }
}

} // verus!
