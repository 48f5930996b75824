//! Character-level helpers: conversion between strings and character
//! vectors, whitespace, splitting, trimming, integer reading and writing.
use vstd::prelude::*;
use vstd::std_specs::iter::IteratorSpec;

verus! {

/// Relies on `String::push`: the character is appended at the end.
#[verifier::external_body]
pub(crate) fn push_char(s: &mut String, c: char)
    ensures
        final(s)@ == old(s)@.push(c),
{
    s.push(c)
}

/// The characters of `s`, in order.
pub fn to_chars(s: &str) -> (r: Vec<char>)
    ensures
        r@ == s@,
{
    let mut v: Vec<char> = Vec::new();
    let mut it = s.chars();
    loop
        invariant
            v@ + it.remaining() == s@,
            it.decrease() is Some,
        decreases it.decrease()->0,
    {
        let ghost before = it.remaining();
        match it.next() {
            Some(c) => {
                v.push(c);
                assert(v@ + it.remaining() =~= s@) by {
                    assert(before =~= seq![c] + it.remaining());
                }
            },
            None => {
                assert(v@ =~= s@);
                return v;
            },
        }
    }
}


/// The string holding the characters of `v`.
pub fn string_of(v: &[char]) -> (r: String)
    ensures
        r@ == v@,
{
    let mut s = String::new();
    let mut i: usize = 0;
    while i < v.len()
        invariant
            i <= v@.len(),
            s@ == v@.take(i as int),
        decreases v@.len() - i,
    {
        push_char(&mut s, v[i]);
        i = i + 1;
        assert(s@ =~= v@.take(i as int));
    }
    assert(v@.take(i as int) =~= v@);
    s
}

/// Characters with the Unicode `White_Space` property.
pub open spec fn is_ws(c: char) -> bool {
    let u = c as u32;
    ||| 0x09 <= u <= 0x0d
    ||| u == 0x20
    ||| u == 0x85
    ||| u == 0xa0
    ||| u == 0x1680
    ||| 0x2000 <= u <= 0x200a
    ||| u == 0x2028
    ||| u == 0x2029
    ||| u == 0x202f
    ||| u == 0x205f
    ||| u == 0x3000
}

pub fn is_whitespace(c: char) -> (r: bool)
    ensures
        r == is_ws(c),
{
    let u = c as u32;
    (0x09 <= u && u <= 0x0d) || u == 0x20 || u == 0x85 || u == 0xa0 || u == 0x1680 || (0x2000
        <= u && u <= 0x200a) || u == 0x2028 || u == 0x2029 || u == 0x202f || u == 0x205f || u
        == 0x3000
}

/// The maximal runs of non-whitespace characters of `s`, left to right.
pub open spec fn words(s: Seq<char>) -> Seq<Seq<char>>
    decreases s.len(),
{
    if s.len() == 0 {
        seq![]
    } else {
        let w = words(s.drop_last());
        let c = s.last();
        if is_ws(c) {
            w
        } else if s.len() >= 2 && !is_ws(s[s.len() - 2]) {
            w.update(w.len() - 1, w.last().push(c))
        } else {
            w.push(seq![c])
        }
    }
}

proof fn lemma_words_nonempty(s: Seq<char>)
    requires
        s.len() > 0,
        !is_ws(s.last()),
    ensures
        words(s).len() > 0,
    decreases s.len(),
{
    if s.len() >= 2 && !is_ws(s[s.len() - 2]) {
        assert(s.drop_last().last() == s[s.len() - 2]);
        lemma_words_nonempty(s.drop_last());
    }
}

/// The views of a sequence of character vectors.
pub open spec fn views(v: Seq<Vec<char>>) -> Seq<Seq<char>> {
    v.map_values(|w: Vec<char>| w@)
}

/// Splits on whitespace, as `str::split_whitespace` does.
pub fn split_words(s: &Vec<char>) -> (r: Vec<Vec<char>>)
    ensures
        views(r@) == words(s@),
{
    let mut r: Vec<Vec<char>> = Vec::new();
    let mut i: usize = 0;
    while i < s.len()
        invariant
            i <= s@.len(),
            views(r@) == words(s@.take(i as int)),
        decreases s@.len() - i,
    {
        let c = s[i];
        let ghost t = s@.take(i as int + 1);
        assert(t.drop_last() =~= s@.take(i as int));
        assert(t.last() == c);
        if is_whitespace(c) {
        } else if i >= 1 && !is_whitespace(s[i - 1]) {
            assert(t[t.len() - 2] == s@[i - 1]);
            proof {
                lemma_words_nonempty(s@.take(i as int));
            }
            let last = r.len() - 1;
            let mut w = r.remove(last);
            w.push(c);
            r.push(w);
            assert(views(r@) =~= words(t));
        } else {
            let mut w: Vec<char> = Vec::new();
            w.push(c);
            r.push(w);
            assert(views(r@) =~= words(t));
        }
        i = i + 1;
    }
    assert(s@.take(i as int) =~= s@);
    r
}

/// The pieces of `s` between occurrences of `sep`, as `str::split` gives them.
pub open spec fn pieces(s: Seq<char>, sep: char) -> Seq<Seq<char>>
    decreases s.len(),
{
    if s.len() == 0 {
        seq![seq![]]
    } else {
        let p = pieces(s.drop_last(), sep);
        if s.last() == sep {
            p.push(seq![])
        } else {
            p.update(p.len() - 1, p.last().push(s.last()))
        }
    }
}

proof fn lemma_pieces_nonempty(s: Seq<char>, sep: char)
    ensures
        pieces(s, sep).len() > 0,
    decreases s.len(),
{
    if s.len() > 0 {
        lemma_pieces_nonempty(s.drop_last(), sep);
    }
}

pub fn split_char(s: &Vec<char>, sep: char) -> (r: Vec<Vec<char>>)
    ensures
        views(r@) == pieces(s@, sep),
        r@.len() > 0,
{
    let mut r: Vec<Vec<char>> = Vec::new();
    r.push(Vec::new());
    assert(views(r@) =~= pieces(s@.take(0), sep));
    let mut i: usize = 0;
    while i < s.len()
        invariant
            i <= s@.len(),
            views(r@) == pieces(s@.take(i as int), sep),
            r@.len() > 0,
        decreases s@.len() - i,
    {
        let c = s[i];
        let ghost t = s@.take(i as int + 1);
        assert(t.drop_last() =~= s@.take(i as int));
        if c == sep {
            r.push(Vec::new());
            assert(views(r@) =~= pieces(t, sep));
        } else {
            let last = r.len() - 1;
            let mut w = r.remove(last);
            w.push(c);
            r.push(w);
            assert(views(r@) =~= pieces(t, sep));
        }
        i = i + 1;
    }
    assert(s@.take(i as int) =~= s@);
    r
}

/// `s` without its trailing whitespace.
pub open spec fn trimmed_end(s: Seq<char>) -> Seq<char>
    decreases s.len(),
{
    if s.len() > 0 && is_ws(s.last()) {
        trimmed_end(s.drop_last())
    } else {
        s
    }
}

/// Drops trailing whitespace, as `str::trim_end` does.
pub fn trim_end(s: &Vec<char>) -> (r: Vec<char>)
    ensures
        r@ == trimmed_end(s@),
{
    let mut n = s.len();
    assert(s@.take(n as int) =~= s@);
    while n > 0 && is_whitespace(s[n - 1])
        invariant
            n <= s@.len(),
            trimmed_end(s@) == trimmed_end(s@.take(n as int)),
        decreases n,
    {
        assert(s@.take(n as int).drop_last() =~= s@.take(n as int - 1));
        n = n - 1;
    }
    let mut r: Vec<char> = Vec::new();
    let mut i: usize = 0;
    while i < n
        invariant
            n <= s@.len(),
            i <= n,
            r@ == s@.take(i as int),
        decreases n - i,
    {
        r.push(s[i]);
        i = i + 1;
        assert(r@ =~= s@.take(i as int));
    }
    r
}


pub open spec fn is_digit(c: char) -> bool {
    '0' <= c <= '9'
}

pub open spec fn digit_value(c: char) -> int {
    c as int - '0' as int
}

pub open spec fn all_digits(s: Seq<char>) -> bool {
    forall|i: int| 0 <= i < s.len() ==> is_digit(#[trigger] s[i])
}

/// The value of a run of decimal digits, most significant first.
pub open spec fn digits_value(s: Seq<char>) -> int
    decreases s.len(),
{
    if s.len() == 0 {
        0
    } else {
        digits_value(s.drop_last()) * 10 + digit_value(s.last())
    }
}

/// The integer written in `s`: an optional sign (`-` only where `signed`) and
/// at least one decimal digit, nothing else.
pub open spec fn int_value(s: Seq<char>, signed: bool) -> Option<int> {
    if s.len() >= 2 && s[0] == '-' && signed && all_digits(s.drop_first()) {
        Some(-digits_value(s.drop_first()))
    } else if s.len() >= 2 && s[0] == '+' && all_digits(s.drop_first()) {
        Some(digits_value(s.drop_first()))
    } else if s.len() >= 1 && all_digits(s) {
        Some(digits_value(s))
    } else {
        None
    }
}

/// The integer written in `s` where it lies in `lo..=hi`, as `str::parse` reads
/// an integer type with that range.
pub open spec fn int_in(s: Seq<char>, signed: bool, lo: int, hi: int) -> Option<int> {
    match int_value(s, signed) {
        Some(v) => if lo <= v <= hi {
            Some(v)
        } else {
            None
        },
        None => None,
    }
}

proof fn lemma_digits_value_grows(s: Seq<char>, i: int)
    requires
        0 <= i <= s.len(),
        all_digits(s),
    ensures
        0 <= digits_value(s.take(i)) <= digits_value(s),
    decreases s.len() - i,
{
    if i < s.len() {
        lemma_digits_value_grows(s, i + 1);
        assert(s.take(i + 1).drop_last() =~= s.take(i));
        assert(s.take(i + 1).last() == s[i]);
    } else {
        assert(s.take(i) =~= s);
    }
    lemma_digits_nonneg(s.take(i));
}

proof fn lemma_digits_nonneg(s: Seq<char>)
    requires
        all_digits(s),
    ensures
        digits_value(s) >= 0,
    decreases s.len(),
{
    if s.len() > 0 {
        assert(all_digits(s.drop_last()));
        lemma_digits_nonneg(s.drop_last());
        assert(is_digit(s[s.len() - 1]));
    }
}

/// Reads the decimal digits `s[from..]`; `None` where one is no digit, and
/// where the value passes `limit`.
fn read_digits(s: &Vec<char>, from: usize, limit: u128) -> (r: Option<u128>)
    requires
        from <= s@.len(),
        limit < 0x1_0000_0000_0000_0000_0000,
    ensures
        !all_digits(s@.skip(from as int)) ==> r is None,
        r matches Some(v) ==> v <= limit,
        all_digits(s@.skip(from as int)) ==> (match r {
            Some(v) => v as int == digits_value(s@.skip(from as int)),
            None => digits_value(s@.skip(from as int)) > limit,
        }),
{
    let ghost t = s@.skip(from as int);
    let mut acc: u128 = 0;
    let mut i: usize = from;
    while i < s.len()
        invariant
            from <= i <= s@.len(),
            t == s@.skip(from as int),
            all_digits(t.take(i - from)),
            acc as int == digits_value(t.take(i - from)),
            acc <= limit,
            limit < 0x1_0000_0000_0000_0000_0000,
        decreases s@.len() - i,
    {
        let c = s[i];
        let ghost u = t.take(i - from + 1);
        assert(u.drop_last() =~= t.take(i - from));
        assert(u.last() == c);
        if !('0' <= c && c <= '9') {
            assert(!is_digit(t[i - from]));
            return None;
        }
        let d = (c as u32 - '0' as u32) as u128;
        assert(acc * 10 + d <= limit * 10 + 9) by (nonlinear_arith)
            requires
                acc <= limit,
                d <= 9,
        ;
        acc = acc * 10 + d;
        i = i + 1;
        if acc > limit {
            proof {
                assert(all_digits(u));
                if all_digits(t) {
                    lemma_digits_value_grows(t, i - from);
                }
            }
            return None;
        }
    }
    assert(t.take(i - from) =~= t);
    Some(acc)
}

/// Parses an integer of `lo..=hi` as `str::parse` does for an integer type
/// with that range (signed where `signed`).
pub fn parse_int(s: &Vec<char>, signed: bool, lo: i128, hi: i128) -> (r: Option<i128>)
    requires
        -0x1_0000_0000_0000_0000 <= lo,
        hi <= 0x1_0000_0000_0000_0000,
    ensures
        r matches Some(v) ==> int_in(s@, signed, lo as int, hi as int) == Some(v as int),
        r is None ==> int_in(s@, signed, lo as int, hi as int) is None,
{
    let limit: u128 = 0x1_0000_0000_0000_0001;
    if s.len() >= 2 && (s[0] == '-' || s[0] == '+') {
        assert(s@.skip(1) =~= s@.drop_first());
        if s[0] == '-' && !signed {
            return None;
        }
        match read_digits(s, 1, limit) {
            Some(m) => {
                let v: i128 = if s[0] == '-' {
                    -(m as i128)
                } else {
                    m as i128
                };
                if lo <= v && v <= hi {
                    Some(v)
                } else {
                    None
                }
            },
            None => None,
        }
    } else if s.len() >= 1 {
        assert(s@.skip(0) =~= s@);
        match read_digits(s, 0, limit) {
            Some(m) => {
                let v = m as i128;
                if lo <= v && v <= hi {
                    Some(v)
                } else {
                    None
                }
            },
            None => None,
        }
    } else {
        None
    }
}

/// The decimal digits of `n`, without leading zeros.
pub open spec fn decimal(n: nat) -> Seq<char>
    decreases n,
{
    if n < 10 {
        seq![digit_char(n)]
    } else {
        decimal(n / 10).push(digit_char(n % 10))
    }
}

pub open spec fn digit_char(d: nat) -> char {
    ((48 + d) as u8) as char
}

/// `n` in decimal, with a `-` before a negative value.
pub open spec fn signed_decimal(n: int) -> Seq<char> {
    if n < 0 {
        seq!['-'] + decimal((-n) as nat)
    } else {
        decimal(n as nat)
    }
}

fn write_decimal(out: &mut String, n: u64)
    ensures
        final(out)@ == old(out)@ + decimal(n as nat),
    decreases n,
{
    if n >= 10 {
        write_decimal(out, n / 10);
    }
    let d = (n % 10) as u8;
    push_char(out, (48u8 + d) as char);
    assert(final(out)@ =~= old(out)@ + decimal(n as nat));
}

/// Appends `n` in decimal, as `{}` formats an integer.
pub fn write_int(out: &mut String, n: i64)
    ensures
        final(out)@ == old(out)@ + signed_decimal(n as int),
{
    if n < 0 {
        push_char(out, '-');
        let m: u64 = if n == i64::MIN {
            0x8000_0000_0000_0000
        } else {
            (-n) as u64
        };
        write_decimal(out, m);
        assert(final(out)@ =~= old(out)@ + signed_decimal(n as int));
    } else {
        write_decimal(out, n as u64);
    }
}

/// Appends `n` as `{:0>2}` formats it: padded with `0` to two characters.
pub fn write_int_2(out: &mut String, n: i64)
    ensures
        final(out)@ == old(out)@ + padded_2(signed_decimal(n as int)),
{
    if 0 <= n && n < 10 {
        push_char(out, '0');
    }
    write_int(out, n);
    proof {
        if 0 <= n < 10 {
            assert(signed_decimal(n as int).len() == 1);
        } else {
            lemma_signed_decimal_long(n as int);
        }
    }
    assert(final(out)@ =~= old(out)@ + padded_2(signed_decimal(n as int)));
}

/// `s` with `0` before it where it is shorter than two characters.
pub open spec fn padded_2(s: Seq<char>) -> Seq<char> {
    if s.len() < 2 {
        seq!['0'] + s
    } else {
        s
    }
}

proof fn lemma_signed_decimal_long(n: int)
    requires
        !(0 <= n < 10),
    ensures
        signed_decimal(n).len() >= 2,
{
    if n < 0 {
        assert(decimal((-n) as nat).len() >= 1);
    } else {
        assert(decimal((n / 10) as nat).len() >= 1) by {
            reveal_with_fuel(decimal, 2);
        }
    }
}


/// Whether two texts hold the same characters.
pub fn same_text(a: &str, b: &str) -> (r: bool)
    ensures
        r == (a@ == b@),
{
    let x = to_chars(a);
    let y = to_chars(b);
    if x.len() != y.len() {
        return false;
    }
    let mut i: usize = 0;
    while i < x.len()
        invariant
            x@ == a@,
            y@ == b@,
            x@.len() == y@.len(),
            i <= x@.len(),
            x@.take(i as int) == y@.take(i as int),
        decreases x@.len() - i,
    {
        if x[i] != y[i] {
            assert(x@[i as int] != y@[i as int]);
            assert(a@ != b@) by {
                if a@ == b@ {
                    assert(x@ == y@);
                }
            }
            return false;
        }
        i = i + 1;
        assert(x@.take(i as int) =~= y@.take(i as int));
    }
    assert(x@ =~= x@.take(i as int));
    assert(y@ =~= y@.take(i as int));
    true
}

} // verus!
