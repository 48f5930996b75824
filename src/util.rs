//! Timestamps and their calendar checks, comparison and display, and fitting
//! text into fixed-width columns.
use vstd::prelude::*;
use std::cmp::Ordering;
use crate::text::{padded_2, push_char, signed_decimal, write_int, write_int_2};
use datetime::{DatePiece, LocalDate, LocalDateTime, LocalTime, Month, Offset, TimePiece};

verus! {

/// Years beyond this distance from zero are outside the calendar's range.
pub const YEAR_LIMIT: i64 = 1_000_000_000;

/// An instant in UTC as the calendar reads it back: year, month (1 to 12),
/// day of the month, hour, minute and second.
#[derive(Clone, Copy, PartialEq, Eq, Structural, Debug)]
pub struct Timestamp {
    pub year: i64,
    pub month: u8,
    pub day: i8,
    pub hour: i8,
    pub minute: i8,
    pub second: i8,
}

impl Timestamp {
    pub open spec fn fields(self) -> (int, int, int, int, int, int) {
        (
            self.year as int,
            self.month as int,
            self.day as int,
            self.hour as int,
            self.minute as int,
            self.second as int,
        )
    }
}

pub open spec fn is_leap_year(y: int) -> bool {
    y % 400 == 0 || (y % 100 != 0 && y % 4 == 0)
}

pub open spec fn days_in_month(m: int, leap: bool) -> int {
    if m == 2 {
        if leap {
            29
        } else {
            28
        }
    } else if m == 4 || m == 6 || m == 9 || m == 11 {
        30
    } else {
        31
    }
}

/// A calendar date: month 1 to 12, day within the month.
pub open spec fn valid_ymd(y: int, m: int, d: int) -> bool {
    1 <= m <= 12 && 1 <= d <= days_in_month(m, is_leap_year(y))
}

/// A time of day; `24:00:00` is accepted as the end of the day.
pub open spec fn valid_hms(h: int, m: int, s: int) -> bool {
    (0 <= h < 24 && 0 <= m < 60 && 0 <= s < 60) || (h == 24 && m == 0 && s == 0)
}

/// A UTC offset in hours and minutes: under a day, minutes under an hour, both
/// of one sign.
pub open spec fn valid_offset(h: int, m: int) -> bool {
    &&& !((h > 0 && m < 0) || (h < 0 && m > 0))
    &&& -24 < h < 24
    &&& -60 < m < 60
}

/// The year, month, day, hour, minute and second that the calendar reads
/// back from a date and time of day shifted by an offset (hours, minutes);
/// shifted by the negated UTC offset, they are the UTC fields.
pub uninterp spec fn offset_applied(
    local: (int, int, int, int, int, int),
    offset: (int, int),
) -> (int, int, int, int, int, int);

/// Relies on `datetime::LocalDate::ymd`: it accepts exactly the calendar dates
/// (leap years by the Gregorian rule).
#[verifier::external_body]
pub(crate) fn date_is_valid(year: i64, month: u8, day: i8) -> (r: bool)
    requires
        1 <= month <= 12,
        -YEAR_LIMIT <= year <= YEAR_LIMIT,
    ensures
        r == valid_ymd(year as int, month as int, day as int),
{
    LocalDate::ymd(year, Month::from_one(month as i8).unwrap(), day).is_ok()
}

/// Relies on `datetime::LocalTime::hms`: it accepts the times of day and
/// `24:00:00`.
#[verifier::external_body]
pub(crate) fn time_is_valid(hour: i8, minute: i8, second: i8) -> (r: bool)
    ensures
        r == valid_hms(hour as int, minute as int, second as int),
{
    LocalTime::hms(hour, minute, second).is_ok()
}

/// Relies on `datetime::Offset::of_hours_and_minutes`: it refuses a sign
/// mismatch, hours out of `-23..=23` and minutes out of `-59..=59`.
#[verifier::external_body]
pub(crate) fn offset_is_valid(hours: i8, minutes: i8) -> (r: bool)
    ensures
        r == valid_offset(hours as int, minutes as int),
{
    Offset::of_hours_and_minutes(hours, minutes).is_ok()
}

/// Relies on `datetime::Offset::transform_date` and the field readers of
/// `datetime::OffsetDateTime`: the fields read back depend on the date, time
/// and offset alone.
#[verifier::external_body]
pub(crate) fn apply_offset(
    year: i64,
    month: u8,
    day: i8,
    time: (i8, i8, i8),
    offset: (i8, i8),
) -> (r: Timestamp)
    requires
        -YEAR_LIMIT <= year <= YEAR_LIMIT,
        valid_ymd(year as int, month as int, day as int),
        valid_hms(time.0 as int, time.1 as int, time.2 as int),
        valid_offset(offset.0 as int, offset.1 as int),
    ensures
        r.fields() == offset_applied(
            (year as int, month as int, day as int, time.0 as int, time.1 as int, time.2 as int),
            (offset.0 as int, offset.1 as int),
        ),
{
    let date = LocalDate::ymd(year, Month::from_one(month as i8).unwrap(), day).unwrap();
    let clock = LocalTime::hms(time.0, time.1, time.2).unwrap();
    let zone = Offset::of_hours_and_minutes(offset.0, offset.1).unwrap();
    let t = zone.transform_date(LocalDateTime::new(date, clock));
    let m = t.month() as u8;
    Timestamp { year: t.year(), month: m, day: t.day(), hour: t.hour(), minute: t.minute(), second: t.second() }
}

/// Relies on `datetime::LocalDateTime::now`: the current time, read back as
/// fields; the calendar reads back a valid date and time of day.
#[verifier::external_body]
pub(crate) fn current_time() -> (r: Timestamp)
    ensures
        valid_ymd(r.year as int, r.month as int, r.day as int),
        valid_hms(r.hour as int, r.minute as int, r.second as int),
{
    let t = LocalDateTime::now();
    let m = t.month() as u8;
    Timestamp { year: t.year(), month: m, day: t.day(), hour: t.hour(), minute: t.minute(), second: t.second() }
}

/// The fields that order timestamps, most significant first.
pub open spec fn field_seq(t: Timestamp) -> Seq<int> {
    seq![
        t.year as int,
        t.month as int,
        t.day as int,
        t.hour as int,
        t.minute as int,
        t.second as int,
    ]
}

/// Lexicographic comparison of two sequences of integers, up to the shorter
/// length.
pub open spec fn lex_cmp(a: Seq<int>, b: Seq<int>) -> Ordering
    decreases a.len(),
{
    if a.len() == 0 || b.len() == 0 {
        Ordering::Equal
    } else if a[0] < b[0] {
        Ordering::Less
    } else if a[0] > b[0] {
        Ordering::Greater
    } else {
        lex_cmp(a.drop_first(), b.drop_first())
    }
}

pub open spec fn timestamp_cmp(a: Timestamp, b: Timestamp) -> Ordering {
    lex_cmp(field_seq(a), field_seq(b))
}

pub fn get_timestamp_fields(t: &Timestamp) -> (r: Vec<i64>)
    ensures
        r@.len() == 6,
        forall|i: int| 0 <= i < 6 ==> r@[i] as int == #[trigger] field_seq(*t)[i],
{
    let mut v: Vec<i64> = Vec::new();
    v.push(t.year);
    v.push(t.month as i64);
    v.push(t.day as i64);
    v.push(t.hour as i64);
    v.push(t.minute as i64);
    v.push(t.second as i64);
    v
}

pub open spec fn ints(v: Seq<i64>) -> Seq<int> {
    v.map_values(|x: i64| x as int)
}

/// Compares two timestamps field by field: year, month, day, hour, minute,
/// second.
pub fn compare_date(date0: &Timestamp, date1: &Timestamp) -> (r: Ordering)
    ensures
        r == timestamp_cmp(*date0, *date1),
{
    let fields0 = get_timestamp_fields(date0);
    let fields1 = get_timestamp_fields(date1);
    assert(ints(fields0@) =~= field_seq(*date0));
    assert(ints(fields1@) =~= field_seq(*date1));
    let mut level: usize = 0;
    let mut result = Ordering::Equal;
    assert(ints(fields0@).skip(0) =~= ints(fields0@));
    assert(ints(fields1@).skip(0) =~= ints(fields1@));
    while level < fields0.len()
        invariant
            fields0@.len() == 6,
            fields1@.len() == 6,
            level <= 6,
            result == Ordering::Equal,
            ints(fields0@) == field_seq(*date0),
            ints(fields1@) == field_seq(*date1),
            timestamp_cmp(*date0, *date1) == lex_cmp(
                ints(fields0@).skip(level as int),
                ints(fields1@).skip(level as int),
            ),
        decreases 6 - level,
    {
        let a = fields0[level];
        let b = fields1[level];
        let ghost x = ints(fields0@).skip(level as int);
        let ghost y = ints(fields1@).skip(level as int);
        assert(x[0] == a as int && y[0] == b as int);
        assert(x.drop_first() =~= ints(fields0@).skip(level + 1));
        assert(y.drop_first() =~= ints(fields1@).skip(level + 1));
        if a < b {
            result = Ordering::Less;
            return result;
        } else if a > b {
            result = Ordering::Greater;
            return result;
        }
        level = level + 1;
    }
    assert(ints(fields0@).skip(6) =~= Seq::<int>::empty());
    assert(ints(fields1@).skip(6) =~= Seq::<int>::empty());
    assert(level == 6);
    assert(lex_cmp(ints(fields0@).skip(6), ints(fields1@).skip(6)) == Ordering::Equal);
    result
}

/// The display form of a timestamp, `DD.MM.YYYY, hh:mm:ss`.
pub open spec fn date_text(t: Timestamp) -> Seq<char> {
    padded_2(signed_decimal(t.day as int)) + seq!['.'] + padded_2(signed_decimal(t.month as int))
        + seq!['.'] + signed_decimal(t.year as int) + seq![',', ' '] + padded_2(
        signed_decimal(t.hour as int),
    ) + seq![':'] + padded_2(signed_decimal(t.minute as int)) + seq![':'] + padded_2(
        signed_decimal(t.second as int),
    )
}

pub fn format_date(date: &Timestamp) -> (r: String)
    ensures
        r@ == date_text(*date),
{
    let mut s = String::new();
    write_int_2(&mut s, date.day as i64);
    push_char(&mut s, '.');
    write_int_2(&mut s, date.month as i64);
    push_char(&mut s, '.');
    write_int(&mut s, date.year);
    push_char(&mut s, ',');
    push_char(&mut s, ' ');
    write_int_2(&mut s, date.hour as i64);
    push_char(&mut s, ':');
    write_int_2(&mut s, date.minute as i64);
    push_char(&mut s, ':');
    write_int_2(&mut s, date.second as i64);
    assert(s@ =~= date_text(*date));
    s
}

/// `s` fitted to `size` characters: cut to `size - 4` characters followed by
/// ` ...` where longer, padded with spaces where shorter.
pub open spec fn fitted(s: Seq<char>, size: int) -> Seq<char> {
    if s.len() > size {
        s.take(size - 4) + seq![' ', '.', '.', '.']
    } else {
        s + Seq::new((size - s.len()) as nat, |i: int| ' ')
    }
}

pub fn fit_string_to_size(input: &String, size: usize) -> (r: String)
    requires
        input@.len() > size ==> size >= 4,
    ensures
        r@ == fitted(input@, size as int),
{
    let chars = crate::text::to_chars(input.as_str());
    let mut s = String::new();
    if chars.len() > size {
        let mut i: usize = 0;
        while i < size - 4
            invariant
                size >= 4,
                i <= size - 4 < chars@.len(),
                s@ == chars@.take(i as int),
            decreases size - 4 - i,
        {
            push_char(&mut s, chars[i]);
            i = i + 1;
            assert(s@ =~= chars@.take(i as int));
        }
        push_char(&mut s, ' ');
        push_char(&mut s, '.');
        push_char(&mut s, '.');
        push_char(&mut s, '.');
        assert(s@ =~= fitted(input@, size as int));
    } else {
        let mut i: usize = 0;
        while i < chars.len()
            invariant
                i <= chars@.len(),
                s@ == chars@.take(i as int),
            decreases chars@.len() - i,
        {
            push_char(&mut s, chars[i]);
            i = i + 1;
            assert(s@ =~= chars@.take(i as int));
        }
        let mut n = chars.len();
        while n < size
            invariant
                chars@.len() <= n <= size,
                s@ == input@ + Seq::new((n - chars@.len()) as nat, |i: int| ' '),
            decreases size - n,
        {
            push_char(&mut s, ' ');
            n = n + 1;
            assert(s@ =~= input@ + Seq::new((n - chars@.len()) as nat, |i: int| ' '));
        }
        assert(s@ =~= fitted(input@, size as int));
    }
    s
}


/// The order of two integers.
pub open spec fn int_cmp(a: int, b: int) -> Ordering {
    if a < b {
        Ordering::Less
    } else if a > b {
        Ordering::Greater
    } else {
        Ordering::Equal
    }
}

/// Timestamps compare by year, then month, day, hour, minute and second, the
/// first field that differs deciding.
pub proof fn lemma_timestamp_cmp_fields(a: Timestamp, b: Timestamp)
    ensures
        timestamp_cmp(a, b) == if a.year != b.year {
            int_cmp(a.year as int, b.year as int)
        } else if a.month != b.month {
            int_cmp(a.month as int, b.month as int)
        } else if a.day != b.day {
            int_cmp(a.day as int, b.day as int)
        } else if a.hour != b.hour {
            int_cmp(a.hour as int, b.hour as int)
        } else if a.minute != b.minute {
            int_cmp(a.minute as int, b.minute as int)
        } else if a.second != b.second {
            int_cmp(a.second as int, b.second as int)
        } else {
            Ordering::Equal
        },
{
    let x = field_seq(a);
    let y = field_seq(b);
    assert(x.drop_first() =~= seq![a.month as int, a.day as int, a.hour as int, a.minute as int, a.second as int]);
    assert(y.drop_first() =~= seq![b.month as int, b.day as int, b.hour as int, b.minute as int, b.second as int]);
    reveal_with_fuel(lex_cmp, 7);
    assert(x.drop_first().drop_first() =~= seq![a.day as int, a.hour as int, a.minute as int, a.second as int]);
    assert(y.drop_first().drop_first() =~= seq![b.day as int, b.hour as int, b.minute as int, b.second as int]);
    assert(x.drop_first().drop_first().drop_first() =~= seq![a.hour as int, a.minute as int, a.second as int]);
    assert(y.drop_first().drop_first().drop_first() =~= seq![b.hour as int, b.minute as int, b.second as int]);
    assert(x.drop_first().drop_first().drop_first().drop_first() =~= seq![a.minute as int, a.second as int]);
    assert(y.drop_first().drop_first().drop_first().drop_first() =~= seq![b.minute as int, b.second as int]);
    assert(x.drop_first().drop_first().drop_first().drop_first().drop_first() =~= seq![a.second as int]);
    assert(y.drop_first().drop_first().drop_first().drop_first().drop_first() =~= seq![b.second as int]);
    assert(x.drop_first().drop_first().drop_first().drop_first().drop_first().drop_first() =~= Seq::<int>::empty());
}

/// Lexicographic comparison is antisymmetric.
pub proof fn lemma_lex_cmp_antisym(a: Seq<int>, b: Seq<int>)
    ensures
        lex_cmp(a, b) == Ordering::Less <==> lex_cmp(b, a) == Ordering::Greater,
        lex_cmp(a, b) == Ordering::Equal <==> lex_cmp(b, a) == Ordering::Equal,
    decreases a.len(),
{
    if a.len() > 0 && b.len() > 0 && a[0] == b[0] {
        lemma_lex_cmp_antisym(a.drop_first(), b.drop_first());
    }
}

/// Lexicographic comparison of sequences of one length is transitive.
pub proof fn lemma_lex_cmp_trans(a: Seq<int>, b: Seq<int>, c: Seq<int>)
    requires
        a.len() == b.len() == c.len(),
        lex_cmp(a, b) != Ordering::Greater,
        lex_cmp(b, c) == Ordering::Less,
    ensures
        lex_cmp(a, c) == Ordering::Less,
    decreases a.len(),
{
    if a[0] == b[0] && b[0] == c[0] {
        lemma_lex_cmp_trans(a.drop_first(), b.drop_first(), c.drop_first());
    }
}

/// Lexicographic comparison of sequences of one length: two steps that do
/// not go down do not go down.
pub proof fn lemma_lex_cmp_trans_le(a: Seq<int>, b: Seq<int>, c: Seq<int>)
    requires
        a.len() == b.len() == c.len(),
        lex_cmp(a, b) != Ordering::Greater,
        lex_cmp(b, c) != Ordering::Greater,
    ensures
        lex_cmp(a, c) != Ordering::Greater,
    decreases a.len(),
{
    if a.len() > 0 && a[0] == b[0] && b[0] == c[0] {
        lemma_lex_cmp_trans_le(a.drop_first(), b.drop_first(), c.drop_first());
    }
}

} // verus!
