//! Messages, their builder, the per-account inbox and the registry of inboxes.
use vstd::prelude::*;
use std::cmp::Ordering;
use vstd::multiset::Multiset;
use crate::account::{account_key, Account};
use crate::text::same_text;
use crate::mail::{
    date_order, info_line, kept_or_fetched, lemma_date_order_antisym, lemma_date_order_trans,
    MailHeader, MailProxy,
};
use crate::text::{int_in, parse_int, to_chars};
use crate::util::{apply_offset, current_time, Timestamp, YEAR_LIMIT};

verus! {

/// A message being put together; `build` turns it into a `Mail` once the
/// required fields are there.
#[derive(Clone)]
pub struct MailBuilder {
    pub date: Option<Timestamp>,
    pub from: Option<String>,
    pub to: Option<Vec<String>>,
    pub cc: Option<Vec<String>>,
    pub bcc: Option<Vec<String>>,
    pub subject: Option<String>,
    pub text: Option<String>,
}

/// A complete message.
pub struct Mail {
    pub date: Timestamp,
    pub from: String,
    pub to: Vec<String>,
    pub cc: Vec<String>,
    pub bcc: Vec<String>,
    pub subject: String,
    pub text: String,
}

impl Mail {
    /// `<from> | <subject>`.
    pub fn get_info(&self) -> (r: String)
        ensures
            r@ == self.from@ + " | "@ + self.subject@,
    {
        let mut ret = String::new();
        ret.append(self.from.as_str());
        ret.append(" | ");
        ret.append(self.subject.as_str());
        ret
    }

    /// A reply skeleton: to this message's sender, from its first recipient
    /// (where it has one), subject `Re: ` followed by this subject.
    pub fn create_reply(&self) -> (r: MailBuilder)
        ensures
            r.to matches Some(v) && v@ == seq![self.from],
            self.to@.len() > 0 ==> r.from == Some(self.to@[0]),
            self.to@.len() == 0 ==> r.from is None,
            r.subject matches Some(s) && s@ == "Re: "@ + self.subject@,
            r.date is None,
            r.cc is None,
            r.bcc is None,
            r.text is None,
    {
        let mut builder = MailBuilder::new();
        let mut to: Vec<String> = Vec::new();
        to.push(self.from.clone());
        builder.to(to);
        if self.to.len() > 0 {
            builder.from(self.to[0].clone());
        }
        let mut subject = String::from_str("Re: ");
        subject.append(self.subject.as_str());
        builder.subject(subject);
        builder
    }
}

impl MailBuilder {
    pub fn new() -> (r: MailBuilder)
        ensures
            r.date is None,
            r.from is None,
            r.to is None,
            r.cc is None,
            r.bcc is None,
            r.subject is None,
            r.text is None,
    {
        MailBuilder { date: None, from: None, to: None, cc: None, bcc: None, subject: None, text: None }
    }

    pub fn date(&mut self, val: Timestamp) -> (r: &mut MailBuilder)
        ensures
            *r == (MailBuilder { date: Some(val), ..*old(self) }),
            *final(self) == *final(r),
    {
        self.date = Some(val);
        self
    }

    pub fn from(&mut self, val: String) -> (r: &mut MailBuilder)
        ensures
            *r == (MailBuilder { from: Some(val), ..*old(self) }),
            *final(self) == *final(r),
    {
        self.from = Some(val);
        self
    }

    pub fn to(&mut self, val: Vec<String>) -> (r: &mut MailBuilder)
        ensures
            *r == (MailBuilder { to: Some(val), ..*old(self) }),
            *final(self) == *final(r),
    {
        self.to = Some(val);
        self
    }

    pub fn cc(&mut self, val: Vec<String>) -> (r: &mut MailBuilder)
        ensures
            *r == (MailBuilder { cc: Some(val), ..*old(self) }),
            *final(self) == *final(r),
    {
        self.cc = Some(val);
        self
    }

    pub fn bcc(&mut self, val: Vec<String>) -> (r: &mut MailBuilder)
        ensures
            *r == (MailBuilder { bcc: Some(val), ..*old(self) }),
            *final(self) == *final(r),
    {
        self.bcc = Some(val);
        self
    }

    pub fn subject(&mut self, val: String) -> (r: &mut MailBuilder)
        ensures
            *r == (MailBuilder { subject: Some(val), ..*old(self) }),
            *final(self) == *final(r),
    {
        self.subject = Some(val);
        self
    }

    pub fn text(&mut self, val: String) -> (r: &mut MailBuilder)
        ensures
            *r == (MailBuilder { text: Some(val), ..*old(self) }),
            *final(self) == *final(r),
    {
        self.text = Some(val);
        self
    }

    /// The first required field that is missing, by its name: `from`, `to`,
    /// `subject` or `text`.
    pub open spec fn missing_field(self) -> Option<Seq<char>> {
        if self.from is None {
            Some("from"@)
        } else if self.to is None {
            Some("to"@)
        } else if self.subject is None {
            Some("subject"@)
        } else if self.text is None {
            Some("text"@)
        } else {
            None
        }
    }

    /// `m` holds this builder's fields, `now` as its date where the builder
    /// has none, and no copies or blind copies where the builder has none.
    pub open spec fn made(self, m: Mail, now: Timestamp) -> bool {
        &&& m.date == (match self.date {
            Some(d) => d,
            None => now,
        })
        &&& Some(m.from) == self.from
        &&& Some(m.to) == self.to
        &&& Some(m.subject) == self.subject
        &&& Some(m.text) == self.text
        &&& m.cc@ == (match self.cc {
            Some(v) => v@,
            None => Seq::empty(),
        })
        &&& m.bcc@ == (match self.bcc {
            Some(v) => v@,
            None => Seq::empty(),
        })
    }

    /// Builds the message, taking `now` as its date where it has none; where a
    /// required field is missing, hands the builder back with that field's name.
    pub fn build_at(self, now: Timestamp) -> (r: Result<Mail, (MailBuilder, String)>)
        ensures
            self.missing_field() matches Some(name) ==> (r matches Err(e) && e.0 == self && e.1@
                == name),
            self.missing_field() is None ==> (r matches Ok(m) && self.made(m, now)),
    {
        if self.from.is_none() {
            return Err((self, String::from_str("from")));
        }
        if self.to.is_none() {
            return Err((self, String::from_str("to")));
        }
        if self.subject.is_none() {
            return Err((self, String::from_str("subject")));
        }
        if self.text.is_none() {
            return Err((self, String::from_str("text")));
        }
        let date = match self.date {
            Some(d) => d,
            None => now,
        };
        let cc = match self.cc {
            Some(v) => v,
            None => Vec::new(),
        };
        let bcc = match self.bcc {
            Some(v) => v,
            None => Vec::new(),
        };
        Ok(
            Mail {
                date,
                from: self.from.unwrap(),
                to: self.to.unwrap(),
                cc,
                bcc,
                subject: self.subject.unwrap(),
                text: self.text.unwrap(),
            },
        )
    }

    /// Builds the message, dated now (at one hour east of UTC) where it has no
    /// date (see `build_at`).
    pub fn build(self) -> (r: Result<Mail, (MailBuilder, String)>)
        ensures
            self.missing_field() matches Some(name) ==> (r matches Err(e) && e.0 == self && e.1@
                == name),
            self.missing_field() is None ==> (r matches Ok(m) && exists|now: Timestamp|
                self.made(m, now)),
    {
        let t = current_time();
        let now = if -YEAR_LIMIT <= t.year && t.year <= YEAR_LIMIT {
            apply_offset(t.year, t.month, t.day, (t.hour, t.minute, t.second), (1, 0))
        } else {
            t
        };
        self.build_at(now)
    }
}


/// Entries ordered newest first: no entry orders before one that follows it.
pub open spec fn newest_first(s: Seq<(MailProxy, bool)>) -> bool {
    forall|i: int, j: int|
        0 <= i < j < s.len() ==> date_order(s[i].0.header.date, s[j].0.header.date)
            != Ordering::Less
}

/// The entry a newly listed header becomes: a proxy with nothing fetched yet,
/// marked unread.
pub open spec fn fresh_entry(h: MailHeader) -> (MailProxy, bool) {
    (MailProxy { header: h, mail: None }, true)
}

pub open spec fn fresh_entries(v: Seq<MailHeader>) -> Seq<(MailProxy, bool)> {
    v.map_values(|h: MailHeader| fresh_entry(h))
}

/// Where an entry is filed: before the first entry from `k` on that orders
/// before it, or at the end.
pub open spec fn file_position(s: Seq<(MailProxy, bool)>, x: (MailProxy, bool), k: int) -> int
    decreases s.len() - k,
{
    if k < 0 || k >= s.len() {
        s.len() as int
    } else if date_order(s[k].0.header.date, x.0.header.date) == Ordering::Less {
        k
    } else {
        file_position(s, x, k + 1)
    }
}

/// `s` with `x` filed in.
pub open spec fn filed(s: Seq<(MailProxy, bool)>, x: (MailProxy, bool)) -> Seq<(MailProxy, bool)> {
    s.insert(file_position(s, x, 0), x)
}

/// `s` with the entries `xs` filed in one after the other.
pub open spec fn filed_all(s: Seq<(MailProxy, bool)>, xs: Seq<(MailProxy, bool)>) -> Seq<
    (MailProxy, bool),
>
    decreases xs.len(),
{
    if xs.len() == 0 {
        s
    } else {
        filed_all(filed(s, xs[0]), xs.drop_first())
    }
}

proof fn lemma_file_position_bound(s: Seq<(MailProxy, bool)>, x: (MailProxy, bool), k: int)
    requires
        0 <= k <= s.len(),
    ensures
        k <= file_position(s, x, k) <= s.len(),
    decreases s.len() - k,
{
    if k < s.len() && date_order(s[k].0.header.date, x.0.header.date) != Ordering::Less {
        lemma_file_position_bound(s, x, k + 1);
    }
}

proof fn lemma_insert_multiset<A>(s: Seq<A>, i: int, x: A)
    requires
        0 <= i <= s.len(),
    ensures
        s.insert(i, x).to_multiset() =~= s.to_multiset().insert(x),
{
    broadcast use vstd::seq_lib::group_to_multiset_ensures;

    let t = s.insert(i, x);
    assert(t.remove(i) =~= s);
    assert(t[i] == x);
    assert(t.contains(x));
    assert(s.to_multiset() =~= t.to_multiset().remove(x));
}

proof fn lemma_insert_sorted(s: Seq<(MailProxy, bool)>, p: int, x: (MailProxy, bool))
    requires
        newest_first(s),
        0 <= p <= s.len(),
        forall|k: int| 0 <= k < p ==> date_order(s[k].0.header.date, x.0.header.date) != Ordering::Less,
        p < s.len() ==> date_order(s[p].0.header.date, x.0.header.date) == Ordering::Less,
    ensures
        newest_first(s.insert(p, x)),
{
    let t = s.insert(p, x);
    assert forall|i: int, j: int| 0 <= i < j < t.len() implies date_order(
        t[i].0.header.date,
        t[j].0.header.date,
    ) != Ordering::Less by {
        if i == p && j > p {
            let e = s[j - 1].0.header.date;
            let f = s[p].0.header.date;
            let d = x.0.header.date;
            lemma_date_order_antisym(f, e);
            lemma_date_order_antisym(e, d);
            lemma_date_order_trans(e, f, d);
            assert(t[j] == s[j - 1]);
        } else if j == p {
            assert(t[i] == s[i]);
        } else if j < p {
            assert(t[i] == s[i] && t[j] == s[j]);
        } else if i < p {
            assert(t[i] == s[i] && t[j] == s[j - 1]);
        } else {
            assert(t[i] == s[i - 1] && t[j] == s[j - 1]);
        }
    }
}

fn is_less(o: Ordering) -> (r: bool)
    ensures
        r == (o == Ordering::Less),
{
    match o {
        Ordering::Less => true,
        _ => false,
    }
}

/// The summary line an entry shows.
pub open spec fn entry_info(e: (MailProxy, bool)) -> Seq<char> {
    match e.0.mail {
        Some(m) => m.from@ + " | "@ + m.subject@,
        None => info_line(e.0.header.date, e.0.header.from@, e.0.header.subject@),
    }
}

/// How many characters `a` and `b` share from the start.
pub open spec fn common_prefix_len(a: Seq<char>, b: Seq<char>) -> nat
    decreases a.len(),
{
    if a.len() == 0 || b.len() == 0 || a[0] != b[0] {
        0
    } else {
        1 + common_prefix_len(a.drop_first(), b.drop_first())
    }
}

/// Among the first `n` entries, the one whose summary shares the most
/// characters from the start with `ident`; the later one wins a tie.
pub open spec fn best_match(s: Seq<(MailProxy, bool)>, ident: Seq<char>, n: int) -> Option<int>
    decreases n,
{
    if n <= 0 {
        None
    } else {
        match best_match(s, ident, n - 1) {
            None => Some(n - 1),
            Some(j) => if common_prefix_len(entry_info(s[n - 1]), ident) >= common_prefix_len(
                entry_info(s[j]),
                ident,
            ) {
                Some(n - 1)
            } else {
                Some(j)
            },
        }
    }
}

/// The entry `ident` selects: the position it writes, where it is a number
/// (and `None` where that is past the end), else the best match.
pub open spec fn chosen_index(s: Seq<(MailProxy, bool)>, ident: Seq<char>) -> Option<int> {
    match int_in(ident, false, 0, usize::MAX as int) {
        Some(v) => if v < s.len() {
            Some(v)
        } else {
            None
        },
        None => best_match(s, ident, s.len() as int),
    }
}

/// The position of the first entry with message number `id`.
pub open spec fn first_with_id(s: Seq<(MailProxy, bool)>, id: u32) -> Option<int>
    decreases s.len(),
{
    if s.len() == 0 {
        None
    } else {
        match first_with_id(s.drop_last(), id) {
            Some(i) => Some(i),
            None => if s.last().0.header.id == id {
                Some(s.len() - 1)
            } else {
                None
            },
        }
    }
}

proof fn lemma_first_with_id_bound(s: Seq<(MailProxy, bool)>, id: u32)
    ensures
        first_with_id(s, id) matches Some(i) ==> 0 <= i < s.len() && s[i].0.header.id == id,
    decreases s.len(),
{
    if s.len() > 0 {
        lemma_first_with_id_bound(s.drop_last(), id);
    }
}

fn common_prefix(a: &Vec<char>, b: &Vec<char>) -> (r: usize)
    ensures
        r == common_prefix_len(a@, b@),
{
    let mut i: usize = 0;
    assert(a@.skip(0) =~= a@);
    assert(b@.skip(0) =~= b@);
    while i < a.len() && i < b.len() && a[i] == b[i]
        invariant
            i <= a@.len(),
            i <= b@.len(),
            common_prefix_len(a@, b@) == i + common_prefix_len(a@.skip(i as int), b@.skip(i as int)),
        decreases a@.len() - i,
    {
        assert(a@.skip(i as int).drop_first() =~= a@.skip(i + 1));
        assert(b@.skip(i as int).drop_first() =~= b@.skip(i + 1));
        i = i + 1;
    }
    proof {
        if i < a@.len() && i < b@.len() {
            assert(a@.skip(i as int)[0] != b@.skip(i as int)[0]);
        }
    }
    i
}

proof fn lemma_first_with_id_prefix(s: Seq<(MailProxy, bool)>, id: u32, n: int)
    requires
        0 <= n <= s.len(),
        first_with_id(s.take(n), id) is Some,
    ensures
        first_with_id(s, id) == first_with_id(s.take(n), id),
    decreases s.len() - n,
{
    if n < s.len() {
        assert(s.take(n + 1).drop_last() =~= s.take(n));
        lemma_first_with_id_prefix(s, id, n + 1);
    } else {
        assert(s.take(n) =~= s);
    }
}

/// The mailbox of one account: the listed messages, newest first, each with
/// its unread flag, and the message that is open, by its number.
pub struct Inbox {
    pub mails: Vec<(MailProxy, bool)>,
    pub account: Account,
    pub opened_mail: Option<u32>,
}

impl Inbox {
    pub open spec fn wf(self) -> bool {
        newest_first(self.mails@)
    }

    pub fn new(account: Account) -> (r: Inbox)
        ensures
            r.wf(),
            r.mails@.len() == 0,
            r.account == account,
            r.opened_mail is None,
    {
        Inbox { mails: Vec::new(), account, opened_mail: None }
    }

    pub fn get_account_name(&self) -> (r: String)
        ensures
            r@ == self.account.name@,
    {
        self.account.name.clone()
    }

    fn entry_score(&self, i: usize, ident: &Vec<char>) -> (r: usize)
        requires
            i < self.mails@.len(),
        ensures
            r == common_prefix_len(entry_info(self.mails@[i as int]), ident@),
    {
        let info = self.mails[i].0.get_info();
        let chars = to_chars(info.as_str());
        common_prefix(&chars, ident)
    }

    fn best_match_index(&self, ident: &Vec<char>) -> (r: Option<usize>)
        ensures
            r matches Some(i) ==> best_match(self.mails@, ident@, self.mails@.len() as int) == Some(
                i as int,
            ) && i < self.mails@.len(),
            r is None ==> best_match(self.mails@, ident@, self.mails@.len() as int) is None,
    {
        let mut best: Option<usize> = None;
        let mut best_score: usize = 0;
        let mut n: usize = 0;
        while n < self.mails.len()
            invariant
                n <= self.mails@.len(),
                best matches Some(j) ==> j < n && best_score == common_prefix_len(
                    entry_info(self.mails@[j as int]),
                    ident@,
                ),
                best_match(self.mails@, ident@, n as int) == match best {
                    Some(j) => Some(j as int),
                    None => None,
                },
            decreases self.mails@.len() - n,
        {
            let score = self.entry_score(n, ident);
            match best {
                None => {
                    best = Some(n);
                    best_score = score;
                },
                Some(_) => {
                    if score >= best_score {
                        best = Some(n);
                        best_score = score;
                    }
                },
            }
            n = n + 1;
        }
        best
    }

    /// Opens the entry that `ident` selects (see `chosen_index`): it is marked
    /// read and its message number becomes the open message. Where nothing is
    /// selected, no message is open afterwards.
    pub fn open_mail(&mut self, ident: String)
        requires
            old(self).wf(),
        ensures
            final(self).wf(),
            final(self).account == old(self).account,
            chosen_index(old(self).mails@, ident@) matches Some(i) ==> final(self).opened_mail
                == Some(old(self).mails@[i].0.header.id) && final(self).mails@ == old(
                self,
            ).mails@.update(i, (old(self).mails@[i].0, false)),
            chosen_index(old(self).mails@, ident@) is None ==> final(self).opened_mail is None
                && final(self).mails@ == old(self).mails@,
    {
        let chars = to_chars(ident.as_str());
        let index = match parse_int(&chars, false, 0, usize::MAX as i128) {
            Some(id) => if id < self.mails.len() as i128 {
                Some(id as usize)
            } else {
                None
            },
            None => self.best_match_index(&chars),
        };
        match index {
            Some(i) => {
                let e = self.mails.remove(i);
                self.opened_mail = Some(e.0.header.id);
                self.mails.insert(i, (e.0, false));
                assert(self.mails@ =~= old(self).mails@.update(i as int, (old(self).mails@[i as int].0, false)));
                assert forall|a: int, b: int| 0 <= a < b < self.mails@.len() implies date_order(
                    self.mails@[a].0.header.date,
                    self.mails@[b].0.header.date,
                ) != Ordering::Less by {
                    assert(self.mails@[a].0 == old(self).mails@[a].0);
                    assert(self.mails@[b].0 == old(self).mails@[b].0);
                    assert(newest_first(old(self).mails@));
                    assert(date_order(
                        old(self).mails@[a].0.header.date,
                        old(self).mails@[b].0.header.date,
                    ) != Ordering::Less);
                }
            },
            None => {
                self.opened_mail = None;
            },
        }
    }

    /// The position of the open message's entry: the first entry with its
    /// number.
    pub fn opened_index(&self) -> (r: Option<usize>)
        ensures
            r matches Some(i) ==> (self.opened_mail is Some && first_with_id(
                self.mails@,
                self.opened_mail->Some_0,
            ) == Some(i as int) && i < self.mails@.len()),
            r is None ==> (self.opened_mail matches Some(id) ==> first_with_id(self.mails@, id)
                is None),
    {
        match self.opened_mail {
            None => None,
            Some(id) => {
                let mut k: usize = 0;
                while k < self.mails.len()
                    invariant
                        k <= self.mails@.len(),
                        self.opened_mail == Some(id),
                        first_with_id(self.mails@.take(k as int), id) is None,
                    decreases self.mails@.len() - k,
                {
                    let ghost t = self.mails@.take(k + 1);
                    assert(t.drop_last() =~= self.mails@.take(k as int));
                    if self.mails[k].0.header.id == id {
                        proof {
                            assert(t.last() == self.mails@[k as int]);
                            assert(t.len() == k + 1);
                            assert(first_with_id(t, id) == Some(k as int));
                            lemma_first_with_id_prefix(self.mails@, id, k + 1);
                            assert(first_with_id(self.mails@, id) == Some(k as int));
                        }
                        return Some(k);
                    }
                    k = k + 1;
                }
                assert(self.mails@.take(k as int) =~= self.mails@);
                None
            },
        }
    }

    /// The open message in full: the one its entry holds, or else `fetched`
    /// (what the connection returned for its header), which the entry keeps
    /// from then on. `None` where no message is open.
    pub fn get_opened_mail(&mut self, fetched: Option<Mail>) -> (r: Option<&Mail>)
        requires
            old(self).wf(),
        ensures
            final(self).wf(),
            final(self).account == old(self).account,
            final(self).opened_mail == old(self).opened_mail,
            match old(self).opened_mail {
                Some(id) => first_with_id(old(self).mails@, id) is Some,
                None => false,
            } ==> ({
                let i = first_with_id(old(self).mails@, old(self).opened_mail->Some_0)->Some_0;
                let e = old(self).mails@[i];
                &&& final(self).mails@.len() == old(self).mails@.len()
                &&& forall|k: int| 0 <= k < old(self).mails@.len() && k != i ==> final(self).mails@[k] == old(self).mails@[k]
                &&& final(self).mails@[i].1 == e.1
                &&& final(self).mails@[i].0.header == e.0.header
                &&& final(self).mails@[i].0.mail == kept_or_fetched(e.0.mail, fetched)
                &&& (r matches Some(m) ==> final(self).mails@[i].0.mail == Some(*m))
                &&& (r is None ==> final(self).mails@[i].0.mail is None)
            }),
            !match old(self).opened_mail {
                Some(id) => first_with_id(old(self).mails@, id) is Some,
                None => false,
            } ==> r is None && final(self).mails@ == old(self).mails@,
    {
        match self.opened_index() {
            None => None,
            Some(i) => {
                let mut e = self.mails.remove(i);
                e.0.get_mail(fetched);
                self.mails.insert(i, e);
                assert forall|a: int, b: int| 0 <= a < b < self.mails@.len() implies date_order(
                    self.mails@[a].0.header.date,
                    self.mails@[b].0.header.date,
                ) != Ordering::Less by {
                    assert(self.mails@[a].0.header == old(self).mails@[a].0.header);
                    assert(self.mails@[b].0.header == old(self).mails@[b].0.header);
                }
                self.mails[i].0.mail.as_ref()
            },
        }
    }

    /// Files one entry after every entry that does not order before it.
    fn insert_sorted(&mut self, e: (MailProxy, bool))
        requires
            old(self).wf(),
        ensures
            final(self).wf(),
            final(self).mails@ == filed(old(self).mails@, e),
            final(self).mails@.to_multiset() == old(self).mails@.to_multiset().insert(e),
            final(self).mails@.len() == old(self).mails@.len() + 1,
            final(self).account == old(self).account,
            final(self).opened_mail == old(self).opened_mail,
    {
        let mut p: usize = 0;
        while p < self.mails.len() && !is_less(self.mails[p].0.header.cmp(&e.0.header))
            invariant
                p <= self.mails@.len(),
                forall|k: int|
                    0 <= k < p ==> date_order(self.mails@[k].0.header.date, e.0.header.date)
                        != Ordering::Less,
                file_position(self.mails@, e, 0) == file_position(self.mails@, e, p as int),
            decreases self.mails@.len() - p,
        {
            p = p + 1;
        }
        proof {
            lemma_insert_sorted(self.mails@, p as int, e);
            lemma_insert_multiset(self.mails@, p as int, e);
        }
        self.mails.insert(p, e);
    }

    /// Takes in what a listing of the mailbox returned: each header becomes an
    /// unread entry, filed so that the entries stay newest first; returns how
    /// many were added. Where the listing failed (`None`) nothing changes.
    pub fn refresh(&mut self, loaded: Option<Vec<MailHeader>>) -> (r: usize)
        requires
            old(self).wf(),
        ensures
            final(self).wf(),
            loaded is None ==> r == 0 && *final(self) == *old(self),
            loaded matches Some(v) ==> r == v@.len() && final(self).mails@ == filed_all(
                old(self).mails@,
                fresh_entries(v@),
            ) && final(self).mails@.len() == old(self).mails@.len() + v@.len()
                && final(self).mails@.to_multiset() == old(self).mails@.to_multiset().add(
                fresh_entries(v@).to_multiset(),
            ),
            final(self).account == old(self).account,
            final(self).opened_mail == old(self).opened_mail,
    {
        match loaded {
            None => 0,
            Some(v) => {
                let mut v = v;
                let n = v.len();
                let ghost orig = v@;
                let ghost start = self.mails@.to_multiset();
                let ghost len0 = self.mails@.len();
                let ghost s0 = self.mails@;
                assert(orig.skip(0) =~= orig);
                let mut k: usize = 0;
                assert(fresh_entries(orig.take(0)).to_multiset() =~= Multiset::empty()) by {
                    broadcast use vstd::seq_lib::group_to_multiset_ensures;

                    assert(fresh_entries(orig.take(0)) =~= Seq::<(MailProxy, bool)>::empty());
                }
                while v.len() > 0
                    invariant
                        k <= n == orig.len(),
                        v@ == orig.skip(k as int),
                        self.wf(),
                        self.mails@.len() == len0 + k,
                        filed_all(s0, fresh_entries(orig)) == filed_all(
                            self.mails@,
                            fresh_entries(orig.skip(k as int)),
                        ),
                        self.mails@.to_multiset() == start.add(
                            fresh_entries(orig.take(k as int)).to_multiset(),
                        ),
                        self.account == old(self).account,
                        self.opened_mail == old(self).opened_mail,
                    decreases v@.len(),
                {
                    let h = v.remove(0);
                    assert(h == orig[k as int]);
                    assert(v@ =~= orig.skip(k + 1));
                    let e = (MailProxy::from_header(h), true);
                    assert(fresh_entries(orig.skip(k as int))[0] == e);
                    assert(fresh_entries(orig.skip(k as int)).drop_first() =~= fresh_entries(
                        orig.skip(k + 1),
                    ));
                    self.insert_sorted(e);
                    proof {
                        broadcast use vstd::seq_lib::group_to_multiset_ensures;

                        assert(fresh_entries(orig.take(k + 1)) =~= fresh_entries(
                            orig.take(k as int),
                        ).push(fresh_entry(h)));
                    }
                    k = k + 1;
                    assert(self.mails@.to_multiset() =~= start.add(
                        fresh_entries(orig.take(k as int)).to_multiset(),
                    ));
                }
                assert(orig.take(k as int) =~= orig);
                assert(fresh_entries(orig.skip(k as int)) =~= Seq::<(MailProxy, bool)>::empty());
                n
            },
        }
    }
}


/// The position of the first entry filed under `k`.
pub open spec fn first_key(s: Seq<(String, Inbox)>, k: Seq<char>) -> Option<int>
    decreases s.len(),
{
    if s.len() == 0 {
        None
    } else {
        match first_key(s.drop_last(), k) {
            Some(i) => Some(i),
            None => if s.last().0@ == k {
                Some(s.len() - 1)
            } else {
                None
            },
        }
    }
}

/// No two entries are filed under the same key.
pub open spec fn keys_unique(s: Seq<(String, Inbox)>) -> bool {
    forall|i: int, j: int| 0 <= i < j < s.len() ==> (#[trigger] s[i]).0@ != (#[trigger] s[j]).0@
}

proof fn lemma_first_key_none(s: Seq<(String, Inbox)>, k: Seq<char>)
    requires
        first_key(s, k) is None,
    ensures
        forall|i: int| 0 <= i < s.len() ==> (#[trigger] s[i]).0@ != k,
    decreases s.len(),
{
    if s.len() > 0 {
        lemma_first_key_none(s.drop_last(), k);
        assert forall|i: int| 0 <= i < s.len() implies (#[trigger] s[i]).0@ != k by {
            if i < s.len() - 1 {
                assert(s[i] == s.drop_last()[i]);
            }
        }
    }
}

proof fn lemma_first_key_bound(s: Seq<(String, Inbox)>, k: Seq<char>)
    ensures
        first_key(s, k) matches Some(i) ==> 0 <= i < s.len() && s[i].0@ == k,
    decreases s.len(),
{
    if s.len() > 0 {
        lemma_first_key_bound(s.drop_last(), k);
    }
}

proof fn lemma_first_key_prefix(s: Seq<(String, Inbox)>, k: Seq<char>, n: int)
    requires
        0 <= n <= s.len(),
        first_key(s.take(n), k) is Some,
    ensures
        first_key(s, k) == first_key(s.take(n), k),
    decreases s.len() - n,
{
    if n < s.len() {
        assert(s.take(n + 1).drop_last() =~= s.take(n));
        lemma_first_key_prefix(s, k, n + 1);
    } else {
        assert(s.take(n) =~= s);
    }
}

/// Replacing what an entry holds, under the same key, moves no key.
proof fn lemma_first_key_update(s: Seq<(String, Inbox)>, i: int, x: (String, Inbox), k: Seq<char>)
    requires
        0 <= i < s.len(),
        x.0@ == s[i].0@,
    ensures
        first_key(s.update(i, x), k) == first_key(s, k),
    decreases s.len(),
{
    let t = s.update(i, x);
    if i < s.len() - 1 {
        assert(t.drop_last() =~= s.drop_last().update(i, x));
        lemma_first_key_update(s.drop_last(), i, x, k);
    } else {
        assert(t.drop_last() =~= s.drop_last());
    }
}

/// The accounts by key, a later account replacing an earlier one with its key.
pub open spec fn registry_of(accounts: Seq<Account>) -> Map<Seq<char>, Account>
    decreases accounts.len(),
{
    if accounts.len() == 0 {
        Map::empty()
    } else {
        registry_of(accounts.drop_last()).insert(
            account_key(accounts.last()),
            accounts.last(),
        )
    }
}

/// Each key holds a fresh inbox of the account filed under it.
pub open spec fn filed_fresh(m: Map<Seq<char>, Inbox>, r: Map<Seq<char>, Account>) -> bool {
    &&& m.dom() == r.dom()
    &&& forall|k: Seq<char>| #[trigger]
        m.contains_key(k) ==> m[k].account == r[k] && m[k].mails@.len() == 0
            && m[k].opened_mail is None
}

proof fn lemma_filed_fresh_insert(
    m: Map<Seq<char>, Inbox>,
    r: Map<Seq<char>, Account>,
    k: Seq<char>,
    b: Inbox,
)
    requires
        filed_fresh(m, r),
        b.mails@.len() == 0,
        b.opened_mail is None,
    ensures
        filed_fresh(m.insert(k, b), r.insert(k, b.account)),
{
    assert(m.insert(k, b).dom() =~= r.insert(k, b.account).dom());
}

/// The inboxes of all configured accounts, by key, and which one is open.
pub struct InboxManager {
    pub account_file: String,
    pub accounts: Vec<(String, Inbox)>,
    pub drafts_folder: String,
    pub opened_inbox: Option<String>,
    pub current_mail_writing: Option<MailBuilder>,
}

impl InboxManager {
    /// The inboxes by key.
    pub open spec fn view(self) -> Map<Seq<char>, Inbox> {
        Map::new(
            |k: Seq<char>| first_key(self.accounts@, k) is Some,
            |k: Seq<char>| self.accounts@[first_key(self.accounts@, k)->Some_0].1,
        )
    }

    /// Each inbox is well formed, and no key is filed twice.
    pub open spec fn wf(self) -> bool {
        &&& forall|i: int| 0 <= i < self.accounts@.len() ==> (#[trigger] self.accounts@[i]).1.wf()
        &&& keys_unique(self.accounts@)
    }

    pub fn new(account_file: String) -> (r: InboxManager)
        ensures
            r.wf(),
            r.account_file == account_file,
            r.view() == Map::<Seq<char>, Inbox>::empty(),
            r.opened_inbox is None,
            r.current_mail_writing is None,
    {
        let r = InboxManager {
            account_file,
            accounts: Vec::new(),
            drafts_folder: String::new(),
            opened_inbox: None,
            current_mail_writing: None,
        };
        assert(r.view() =~= Map::<Seq<char>, Inbox>::empty());
        r
    }

    /// The position of the entry filed under `key`.
    fn find(&self, key: &str) -> (r: Option<usize>)
        ensures
            r matches Some(i) ==> first_key(self.accounts@, key@) == Some(i as int) && i
                < self.accounts@.len(),
            r is None ==> first_key(self.accounts@, key@) is None,
    {
        let mut j: usize = 0;
        while j < self.accounts.len()
            invariant
                j <= self.accounts@.len(),
                first_key(self.accounts@.take(j as int), key@) is None,
            decreases self.accounts@.len() - j,
        {
            let ghost t = self.accounts@.take(j + 1);
            assert(t.drop_last() =~= self.accounts@.take(j as int));
            assert(t.last() == self.accounts@[j as int]);
            if same_text(self.accounts[j].0.as_str(), key) {
                proof {
                    assert(first_key(t, key@) == Some(j as int));
                    lemma_first_key_prefix(self.accounts@, key@, j + 1);
                }
                return Some(j);
            }
            j = j + 1;
        }
        assert(self.accounts@.take(j as int) =~= self.accounts@);
        None
    }

    /// Files a fresh inbox for each account under its key (its shortcut, or
    /// else its name); a later account replaces an earlier one with its key.
    /// What was filed before is dropped.
    pub fn load_accounts(&mut self, accounts: Vec<Account>)
        ensures
            final(self).wf(),
            filed_fresh(final(self).view(), registry_of(accounts@)),
            final(self).opened_inbox == old(self).opened_inbox,
            final(self).account_file == old(self).account_file,
            final(self).drafts_folder == old(self).drafts_folder,
            final(self).current_mail_writing == old(self).current_mail_writing,
    {
        self.accounts = Vec::new();
        let mut v = accounts;
        let total = v.len();
        let ghost orig = v@;
        let mut n: usize = 0;
        assert(orig.take(0) =~= Seq::<Account>::empty());
        assert(self.view() =~= Map::<Seq<char>, Inbox>::empty());
        while v.len() > 0
            invariant
                n <= orig.len() == total,
                v@ == orig.skip(n as int),
                self.wf(),
                filed_fresh(self.view(), registry_of(orig.take(n as int))),
                self.opened_inbox == old(self).opened_inbox,
                self.account_file == old(self).account_file,
                self.drafts_folder == old(self).drafts_folder,
                self.current_mail_writing == old(self).current_mail_writing,
            decreases v@.len(),
        {
            assert(n < orig.len());
            let account = v.remove(0);
            assert(account == orig[n as int]);
            assert(v@ =~= orig.skip(n + 1));
            let ghost before = self.accounts@;
            let ghost old_view = self.view();
            let key = account.key();
            let ghost kk = key@;
            let inbox = Inbox::new(account);
            let ghost fresh = inbox;
            assert(orig.take(n + 1).drop_last() =~= orig.take(n as int));
            assert(orig.take(n + 1).last() == orig[n as int]);
            match self.find(key.as_str()) {
                Some(i) => {
                    let old_entry = self.accounts.remove(i);
                    self.accounts.insert(i, (old_entry.0, inbox));
                    proof {
                        lemma_first_key_bound(before, kk);
                        assert(self.accounts@ =~= before.update(i as int, (old_entry.0, fresh)));
                        assert forall|a: int, b: int|
                            0 <= a < b < self.accounts@.len() implies (#[trigger] self.accounts@[a]).0@
                            != (#[trigger] self.accounts@[b]).0@ by {
                            assert(self.accounts@[a].0 == before[a].0);
                            assert(self.accounts@[b].0 == before[b].0);
                        }
                        assert forall|k: Seq<char>|
                            first_key(self.accounts@, k) == first_key(before, k) by {
                            lemma_first_key_update(before, i as int, (old_entry.0, fresh), k);
                            lemma_first_key_bound(before, k);
                        }
                    }
                },
                None => {
                    self.accounts.push((key, inbox));
                    proof {
                        assert(self.accounts@.drop_last() =~= before);
                        lemma_first_key_none(before, kk);
                        assert forall|a: int, b: int|
                            0 <= a < b < self.accounts@.len() implies (#[trigger] self.accounts@[a]).0@
                            != (#[trigger] self.accounts@[b]).0@ by {
                            if b < before.len() {
                                assert(self.accounts@[a] == before[a] && self.accounts@[b] == before[b]);
                            } else {
                                assert(self.accounts@[a] == before[a]);
                            }
                        }
                        assert forall|k: Seq<char>| k != kk implies first_key(self.accounts@, k)
                            == first_key(before, k) by {
                            lemma_first_key_bound(before, k);
                        }
                    }
                },
            }
            proof {
                assert forall|k: Seq<char>| k != kk && #[trigger] first_key(before, k) is Some implies before[first_key(before, k)->Some_0] == self.accounts@[first_key(before, k)->Some_0] by {
                    lemma_first_key_bound(before, k);
                    lemma_first_key_bound(before, kk);
                }
                lemma_first_key_bound(self.accounts@, kk);
                assert(self.view() =~= old_view.insert(kk, fresh));
                lemma_filed_fresh_insert(old_view, registry_of(orig.take(n as int)), kk, fresh);
            }
            n = n + 1;
        }
        assert(orig.take(n as int) =~= orig);
    }

    /// Opens the inbox filed under `ident`, where there is one.
    pub fn open_inbox(&mut self, ident: String) -> (r: bool)
        ensures
            r == final(self).view().contains_key(ident@),
            final(self).view() == old(self).view(),
            final(self).accounts == old(self).accounts,
            r ==> final(self).opened_inbox == Some(ident),
            !r ==> final(self).opened_inbox == old(self).opened_inbox,
    {
        let valid = self.find(ident.as_str()).is_some();
        if valid {
            self.opened_inbox = Some(ident);
        }
        valid
    }

    /// The position of the open inbox's entry, looked up by its key each time.
    pub fn opened_index(&self) -> (r: Option<usize>)
        ensures
            r matches Some(i) ==> (self.opened_inbox is Some && first_key(
                self.accounts@,
                self.opened_inbox->Some_0@,
            ) == Some(i as int) && i < self.accounts@.len()),
            r is None ==> (self.opened_inbox is None || first_key(
                self.accounts@,
                self.opened_inbox->Some_0@,
            ) is None),
    {
        match &self.opened_inbox {
            Some(key) => self.find(key.as_str()),
            None => None,
        }
    }

    /// The open inbox, looked up by its key.
    pub fn get_opened_inbox(&self) -> (r: Option<&Inbox>)
        ensures
            r matches Some(b) ==> (self.opened_inbox is Some && self.view().contains_key(
                self.opened_inbox->Some_0@,
            ) && *b == self.view()[self.opened_inbox->Some_0@]),
            r is None ==> (self.opened_inbox is None || !self.view().contains_key(
                self.opened_inbox->Some_0@,
            )),
    {
        match self.opened_index() {
            Some(i) => Some(&self.accounts[i].1),
            None => None,
        }
    }
}

} // verus!
