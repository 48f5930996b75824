//! Decoding of MIME encoded words in header text, and the informal date
//! parser used on the `Date` header.
use vstd::prelude::*;
use vstd::utf8::*;
use crate::text::{
    int_in, parse_int, pieces, push_char, split_char, split_words, string_of, to_chars, views,
    words,
};
use crate::util::{
    apply_offset, date_is_valid, offset_applied, offset_is_valid, time_is_valid, valid_hms,
    valid_offset, valid_ymd, Timestamp, YEAR_LIMIT,
};

verus! {

/// The two payload encodings of an encoded word.
#[derive(Clone, Copy, PartialEq, Eq, Structural, Debug)]
pub enum Encoding {
    /// quoted-printable style: `=XX` escapes and `_` for space
    Quoted,
    /// base64
    Base64,
}

pub open spec fn q_marker_upper() -> Seq<char> {
    seq!['=', '?', 'U', 'T', 'F', '-', '8', '?', 'q', '?']
}

pub open spec fn q_marker_lower() -> Seq<char> {
    seq!['=', '?', 'u', 't', 'f', '-', '8', '?', 'q', '?']
}

pub open spec fn b_marker() -> Seq<char> {
    seq!['=', '?', 'U', 'T', 'F', '-', '8', '?', 'B', '?']
}

/// Length shared by every start marker.
pub open spec fn marker_len() -> int {
    10
}

/// The encoding whose start marker stands in `s` at position `p`.
pub open spec fn marker_at(s: Seq<char>, p: int) -> Option<Encoding> {
    if 0 <= p && p + marker_len() <= s.len() {
        let w = s.subrange(p, p + marker_len());
        if w == q_marker_upper() || w == q_marker_lower() {
            Some(Encoding::Quoted)
        } else if w == b_marker() {
            Some(Encoding::Base64)
        } else {
            None
        }
    } else {
        None
    }
}

/// The first position at or after `j` where the end marker `?=` starts.
pub open spec fn end_marker_from(s: Seq<char>, j: int) -> Option<int>
    decreases s.len() - j,
{
    if j < 0 || j + 2 > s.len() {
        None
    } else if s[j] == '?' && s[j + 1] == '=' {
        Some(j)
    } else {
        end_marker_from(s, j + 1)
    }
}

/// A hexadecimal digit's value.
pub open spec fn hex_value(c: char) -> Option<int> {
    if '0' <= c <= '9' {
        Some(c as int - '0' as int)
    } else if 'a' <= c <= 'f' {
        Some(c as int - 'a' as int + 10)
    } else if 'A' <= c <= 'F' {
        Some(c as int - 'A' as int + 10)
    } else {
        None
    }
}

/// `bytes` read as UTF-8, each byte that starts no valid sequence dropped.
pub open spec fn utf8_lossy(bytes: Seq<u8>) -> Seq<char>
    decreases bytes.len(),
{
    if bytes.len() == 0 {
        seq![]
    } else if valid_first_scalar(bytes) {
        seq![decode_first_scalar(bytes) as char] + utf8_lossy(
            bytes.skip(length_of_first_scalar(bytes)),
        )
    } else {
        utf8_lossy(bytes.drop_first())
    }
}

/// The text of the quoted payload `p`, after the escaped bytes `pending`:
/// `=` and the two characters after it give one byte (nothing where they are
/// no hex digits, nothing for a dangling escape), `_` gives a space, any other
/// character stands for itself; each run of bytes is read as UTF-8, invalid
/// sequences dropped.
pub open spec fn q_text_after(p: Seq<char>, pending: Seq<u8>) -> Seq<char>
    decreases p.len(),
{
    if p.len() == 0 {
        utf8_lossy(pending)
    } else if p[0] == '=' {
        if p.len() < 3 {
            utf8_lossy(pending)
        } else if hex_value(p[1]) is Some && hex_value(p[2]) is Some {
            let b = (hex_value(p[1])->Some_0 * 16 + hex_value(p[2])->Some_0) as u8;
            q_text_after(p.skip(3), pending.push(b))
        } else {
            q_text_after(p.skip(3), pending)
        }
    } else {
        let c = if p[0] == '_' {
            ' '
        } else {
            p[0]
        };
        utf8_lossy(pending) + seq![c] + q_text_after(p.drop_first(), seq![])
    }
}

pub open spec fn q_text(p: Seq<char>) -> Seq<char> {
    q_text_after(p, seq![])
}

/// What base64 decoding gives for `s`; `None` where it reports an error.
pub uninterp spec fn base64_decoded(s: Seq<char>) -> Option<Seq<u8>>;

pub open spec fn b_text(p: Seq<char>) -> Seq<char> {
    match base64_decoded(p) {
        Some(bytes) => if valid_utf8(bytes) {
            decode_utf8(bytes)
        } else {
            seq![]
        },
        None => seq![],
    }
}

pub open spec fn payload_text(e: Encoding, p: Seq<char>) -> Seq<char> {
    match e {
        Encoding::Quoted => q_text(p),
        Encoding::Base64 => b_text(p),
    }
}

/// The decoded text of `s[i..]`: a start marker and the payload up to the next
/// end marker (or to the end of the text where none follows) are replaced by
/// the decoded payload; every other character is kept.
pub open spec fn decoded_from(s: Seq<char>, i: int) -> Seq<char>
    decreases s.len() - i,
    via decoded_from_decreases
{
    if i < 0 || i >= s.len() {
        seq![]
    } else {
        match marker_at(s, i) {
            Some(e) => match end_marker_from(s, i + marker_len()) {
                Some(q) => payload_text(e, s.subrange(i + marker_len(), q)) + decoded_from(
                    s,
                    q + 2,
                ),
                None => payload_text(e, s.subrange(i + marker_len(), s.len() as int)),
            },
            None => seq![s[i]] + decoded_from(s, i + 1),
        }
    }
}

#[via_fn]
proof fn decoded_from_decreases(s: Seq<char>, i: int) {
    lemma_end_marker_bound(s, i + marker_len());
}

/// The header text `s` with its encoded words decoded.
pub open spec fn decoded(s: Seq<char>) -> Seq<char> {
    decoded_from(s, 0)
}


fn window_is(s: &Vec<char>, p: usize, m: &Vec<char>) -> (r: bool)
    requires
        p as int + m@.len() <= s@.len(),
    ensures
        r == (s@.subrange(p as int, p + m@.len()) == m@),
{
    let mut k: usize = 0;
    while k < m.len()
        invariant
            k <= m@.len(),
            p as int + m@.len() <= s@.len(),
            s@.subrange(p as int, p + k) == m@.take(k as int),
        decreases m@.len() - k,
    {
        let n = s.len();
        assert(p + k < n);
        if s[p + k] != m[k] {
            assert(s@.subrange(p as int, p + m@.len())[k as int] != m@[k as int]);
            return false;
        }
        k = k + 1;
        assert(s@.subrange(p as int, p + k) =~= m@.take(k as int));
    }
    assert(m@.take(k as int) =~= m@);
    true
}

/// Which start marker, if any, stands in `s` at `p`.
fn match_marker(s: &Vec<char>, p: usize) -> (r: Option<Encoding>)
    ensures
        r == marker_at(s@, p as int),
{
    if s.len() < 10 || p > s.len() - 10 {
        return None;
    }
    let q_upper = vec!['=', '?', 'U', 'T', 'F', '-', '8', '?', 'q', '?'];
    let q_lower = vec!['=', '?', 'u', 't', 'f', '-', '8', '?', 'q', '?'];
    let b = vec!['=', '?', 'U', 'T', 'F', '-', '8', '?', 'B', '?'];
    assert(q_upper@ == q_marker_upper());
    assert(q_lower@ == q_marker_lower());
    assert(b@ == b_marker());
    if window_is(s, p, &q_upper) || window_is(s, p, &q_lower) {
        Some(Encoding::Quoted)
    } else if window_is(s, p, &b) {
        Some(Encoding::Base64)
    } else {
        None
    }
}

/// The first position at or after `from` where the end marker `?=` starts.
fn find_marker(s: &Vec<char>, from: usize) -> (r: Option<usize>)
    ensures
        r matches Some(q) ==> end_marker_from(s@, from as int) == Some(q as int) && from <= q
            && q + 2 <= s@.len(),
        r is None ==> end_marker_from(s@, from as int) is None,
{
    let mut j = from;
    while j < s.len() && s.len() - j >= 2
        invariant
            from <= j,
            end_marker_from(s@, from as int) == end_marker_from(s@, j as int),
        decreases s@.len() - j,
    {
        if s[j] == '?' && s[j + 1] == '=' {
            return Some(j);
        }
        j = j + 1;
    }
    None
}

fn hex_digit(c: char) -> (r: Option<u8>)
    ensures
        r matches Some(v) ==> hex_value(c) == Some(v as int),
        r is None ==> hex_value(c) is None,
{
    if '0' <= c && c <= '9' {
        Some((c as u32 - '0' as u32) as u8)
    } else if 'a' <= c && c <= 'f' {
        Some((c as u32 - 'a' as u32 + 10) as u8)
    } else if 'A' <= c && c <= 'F' {
        Some((c as u32 - 'A' as u32 + 10) as u8)
    } else {
        None
    }
}

/// Relies on `base64::decode` (standard alphabet): the decoded bytes, or an
/// error; either depends on the text alone.
#[verifier::external_body]
fn base64_decode(s: &str) -> (r: Option<Vec<u8>>)
    ensures
        r matches Some(v) ==> base64_decoded(s@) == Some(v@),
        r is None ==> base64_decoded(s@) is None,
{
    base64::decode(s).ok()
}

/// Relies on `char::from_u32`: every Unicode scalar value is a `char`.
#[verifier::external_body]
fn scalar_char(v: u32) -> (c: char)
    requires
        v <= 0x10ffff,
        not_surrogate(v),
    ensures
        c == v as char,
{
    char::from_u32(v).unwrap()
}

/// The scalar value and length of the UTF-8 sequence at `b[i..]`, where one
/// valid sequence starts there.
fn first_scalar(b: &Vec<u8>, i: usize) -> (r: Option<(u32, usize)>)
    requires
        i < b@.len(),
    ensures
        r matches Some(x) ==> valid_first_scalar(b@.skip(i as int)) && x.0 == decode_first_scalar(
            b@.skip(i as int),
        ) && x.1 as int == length_of_first_scalar(b@.skip(i as int)) && x.0 <= 0x10ffff,
        r is None ==> !valid_first_scalar(b@.skip(i as int)),
{
    let ghost t = b@.skip(i as int);
    let n = b.len() - i;
    let b0 = b[i];
    assert(t[0] == b0);
    if b0 <= 0x7f {
        let v = (b0 & 0x7F) as u32;
        assert(v <= 0x7f) by (bit_vector)
            requires
                v == (b0 & 0x7F) as u32,
        ;
        return Some((v, 1));
    }
    if 0xc0 <= b0 && b0 <= 0xdf {
        if n < 2 {
            return None;
        }
        let b1 = b[i + 1];
        assert(t[1] == b1);
        if !(0x80 <= b1 && b1 <= 0xbf) {
            return None;
        }
        let v = (((b0 & 0x1F) as u32) << 6) | ((b1 & 0x3f) as u32);
        assert(v <= 0x7ff) by (bit_vector)
            requires
                v == (((b0 & 0x1F) as u32) << 6) | ((b1 & 0x3f) as u32),
        ;
        if v < 0x80 {
            return None;
        }
        return Some((v, 2));
    }
    if 0xe0 <= b0 && b0 <= 0xef {
        if n < 3 {
            return None;
        }
        let b1 = b[i + 1];
        let b2 = b[i + 2];
        assert(t[1] == b1 && t[2] == b2);
        if !(0x80 <= b1 && b1 <= 0xbf && 0x80 <= b2 && b2 <= 0xbf) {
            return None;
        }
        let v = (((b0 & 0x0F) as u32) << 12) | (((b1 & 0x3f) as u32) << 6) | ((b2 & 0x3f) as u32);
        assert(v <= 0xffff) by (bit_vector)
            requires
                v == (((b0 & 0x0F) as u32) << 12) | (((b1 & 0x3f) as u32) << 6) | ((b2
                    & 0x3f) as u32),
        ;
        if v < 0x800 || (0xd800 <= v && v <= 0xdfff) {
            return None;
        }
        return Some((v, 3));
    }
    if 0xf0 <= b0 && b0 <= 0xf7 {
        if n < 4 {
            return None;
        }
        let b1 = b[i + 1];
        let b2 = b[i + 2];
        let b3 = b[i + 3];
        assert(t[1] == b1 && t[2] == b2 && t[3] == b3);
        if !(0x80 <= b1 && b1 <= 0xbf && 0x80 <= b2 && b2 <= 0xbf && 0x80 <= b3 && b3 <= 0xbf) {
            return None;
        }
        let v = (((b0 & 0x07) as u32) << 18) | (((b1 & 0x3f) as u32) << 12) | (((b2 & 0x3f) as u32)
            << 6) | ((b3 & 0x3f) as u32);
        if v < 0x10000 || v > 0x10ffff {
            return None;
        }
        return Some((v, 4));
    }
    None
}

proof fn lemma_lossy_valid(b: Seq<u8>)
    requires
        valid_utf8(b),
    ensures
        utf8_lossy(b) == decode_utf8(b),
    decreases b.len(),
{
    if b.len() > 0 {
        let l = length_of_first_scalar(b);
        assert(pop_first_scalar(b) =~= b.skip(l));
        lemma_lossy_valid(b.skip(l));
    }
}

/// Appends `b` read as UTF-8, dropping each byte that starts no valid
/// sequence; tells whether `b` was valid UTF-8 throughout.
fn push_utf8_lossy(out: &mut Vec<char>, b: &Vec<u8>) -> (clean: bool)
    ensures
        final(out)@ == old(out)@ + utf8_lossy(b@),
        clean == valid_utf8(b@),
{
    let mut i: usize = 0;
    let mut clean = true;
    let ghost start = out@;
    assert(b@.skip(0) =~= b@);
    while i < b.len()
        invariant
            i <= b@.len(),
            start + utf8_lossy(b@) == out@ + utf8_lossy(b@.skip(i as int)),
            valid_utf8(b@) == (clean && valid_utf8(b@.skip(i as int))),
        decreases b@.len() - i,
    {
        let ghost t = b@.skip(i as int);
        match first_scalar(b, i) {
            Some((v, l)) => {
                let c = scalar_char(v);
                out.push(c);
                assert(t.skip(l as int) =~= b@.skip(i + l));
                assert(pop_first_scalar(t) =~= b@.skip(i + l));
                assert(start + utf8_lossy(b@) =~= out@ + utf8_lossy(b@.skip(i + l)));
                i = i + l;
            },
            None => {
                assert(t.drop_first() =~= b@.skip(i + 1));
                clean = false;
                i = i + 1;
            },
        }
    }
    assert(b@.skip(i as int) =~= Seq::<u8>::empty());
    assert(out@ =~= start + utf8_lossy(b@));
    clean
}


/// Decodes the quoted payload `p[from..to]`.
fn decode_utf8_q(p: &Vec<char>, from: usize, to: usize) -> (r: Vec<char>)
    requires
        from <= to <= p@.len(),
    ensures
        r@ == q_text(p@.subrange(from as int, to as int)),
{
    let ghost whole = p@.subrange(from as int, to as int);
    let mut out: Vec<char> = Vec::new();
    let mut pending: Vec<u8> = Vec::new();
    let mut i = from;
    while i < to
        invariant
            from <= i <= to <= p@.len(),
            whole == p@.subrange(from as int, to as int),
            q_text(whole) == out@ + q_text_after(p@.subrange(i as int, to as int), pending@),
        decreases to - i,
    {
        let ghost rest = p@.subrange(i as int, to as int);
        let c = p[i];
        assert(rest[0] == c);
        if c == '=' {
            if to - i >= 3 {
                assert(rest.skip(3) =~= p@.subrange(i + 3, to as int));
                assert(rest[1] == p@[i + 1] && rest[2] == p@[i + 2]);
                match (hex_digit(p[i + 1]), hex_digit(p[i + 2])) {
                    (Some(h), Some(l)) => {
                        pending.push(h * 16 + l);
                    },
                    _ => {},
                }
                i = i + 3;
            } else {
                push_utf8_lossy(&mut out, &pending);
                pending = Vec::new();
                assert(q_text_after(p@.subrange(to as int, to as int), pending@) =~= Seq::<
                    char,
                >::empty());
                assert(q_text(whole) =~= out@ + q_text_after(
                    p@.subrange(to as int, to as int),
                    pending@,
                ));
                i = to;
            }
        } else {
            assert(rest.drop_first() =~= p@.subrange(i + 1, to as int));
            push_utf8_lossy(&mut out, &pending);
            pending = Vec::new();
            let lit = if c == '_' {
                ' '
            } else {
                c
            };
            out.push(lit);
            assert(pending@ =~= Seq::<u8>::empty());
            assert(q_text(whole) =~= out@ + q_text_after(p@.subrange(i + 1, to as int), pending@));
            i = i + 1;
        }
    }
    assert(p@.subrange(i as int, to as int) =~= Seq::<char>::empty());
    push_utf8_lossy(&mut out, &pending);
    out
}

/// Decodes the base64 payload `p[from..to]`: empty where it is no base64 or
/// no UTF-8.
fn decode_utf8_b(p: &Vec<char>, from: usize, to: usize) -> (r: Vec<char>)
    requires
        from <= to <= p@.len(),
    ensures
        r@ == b_text(p@.subrange(from as int, to as int)),
{
    let mut part: Vec<char> = Vec::new();
    let mut i = from;
    while i < to
        invariant
            from <= i <= to <= p@.len(),
            part@ == p@.subrange(from as int, i as int),
        decreases to - i,
    {
        part.push(p[i]);
        i = i + 1;
        assert(part@ =~= p@.subrange(from as int, i as int));
    }
    let text = string_of(part.as_slice());
    match base64_decode(text.as_str()) {
        Some(bytes) => {
            let mut out: Vec<char> = Vec::new();
            let clean = push_utf8_lossy(&mut out, &bytes);
            if clean {
                proof {
                    lemma_lossy_valid(bytes@);
                }
                assert(out@ =~= decode_utf8(bytes@));
                out
            } else {
                Vec::new()
            }
        },
        None => Vec::new(),
    }
}

fn push_all(out: &mut String, v: &Vec<char>)
    ensures
        final(out)@ == old(out)@ + v@,
{
    let mut i: usize = 0;
    let ghost start = out@;
    while i < v.len()
        invariant
            i <= v@.len(),
            out@ == start + v@.take(i as int),
        decreases v@.len() - i,
    {
        push_char(out, v[i]);
        i = i + 1;
        assert(out@ =~= start + v@.take(i as int));
    }
    assert(v@.take(i as int) =~= v@);
}

/// Decodes the encoded words in a header field: each start marker and the
/// payload up to the next end marker (or the end of the text) is replaced by
/// the decoded payload; the text around is kept as it is.
pub fn decode(field: String) -> (r: String)
    ensures
        r@ == decoded(field@),
{
    let s = to_chars(field.as_str());
    let mut out = String::new();
    let mut i: usize = 0;
    while i < s.len()
        invariant
            i <= s@.len(),
            s@ == field@,
            decoded(s@) == out@ + decoded_from(s@, i as int),
        decreases s@.len() - i,
    {
        match match_marker(&s, i) {
            Some(e) => {
                let start = i + 10;
                let (end, next) = match find_marker(&s, start) {
                    Some(q) => (q, q + 2),
                    None => (s.len(), s.len()),
                };
                let text = match e {
                    Encoding::Quoted => decode_utf8_q(&s, start, end),
                    Encoding::Base64 => decode_utf8_b(&s, start, end),
                };
                push_all(&mut out, &text);
                proof {
                    if next == s@.len() {
                        assert(decoded_from(s@, next as int) =~= Seq::<char>::empty());
                    }
                }
                assert(decoded(s@) =~= out@ + decoded_from(s@, next as int));
                i = next;
            },
            None => {
                push_char(&mut out, s[i]);
                assert(decoded(s@) =~= out@ + decoded_from(s@, i + 1));
                i = i + 1;
            },
        }
    }
    assert(decoded_from(s@, i as int) =~= Seq::<char>::empty());
    out
}


proof fn lemma_plain_from(s: Seq<char>, i: int)
    requires
        0 <= i <= s.len(),
        forall|p: int| 0 <= p < s.len() ==> marker_at(s, p) is None,
    ensures
        decoded_from(s, i) == s.skip(i),
    decreases s.len() - i,
{
    if i < s.len() {
        lemma_plain_from(s, i + 1);
        assert(s.skip(i) =~= seq![s[i]] + s.skip(i + 1));
    } else {
        assert(s.skip(i) =~= Seq::<char>::empty());
    }
}

/// Text in which no start marker stands comes out of decoding unchanged.
pub proof fn lemma_decode_plain(s: Seq<char>)
    requires
        forall|p: int| 0 <= p < s.len() ==> marker_at(s, p) is None,
    ensures
        decoded(s) == s,
{
    lemma_plain_from(s, 0);
    assert(s.skip(0) =~= s);
}


/// `c` is the lower-case ASCII letter `l` in either case.
pub open spec fn folds_to(c: char, l: char) -> bool {
    c == l || c as u32 + 32 == l as u32
}

pub open spec fn name_is(t: Seq<char>, a: char, b: char, c: char) -> bool {
    t.len() == 3 && folds_to(t[0], a) && folds_to(t[1], b) && folds_to(t[2], c)
}

/// The number of an English three-letter month abbreviation, in any case.
pub open spec fn month_number(t: Seq<char>) -> Option<int> {
    if name_is(t, 'j', 'a', 'n') {
        Some(1)
    } else if name_is(t, 'f', 'e', 'b') {
        Some(2)
    } else if name_is(t, 'm', 'a', 'r') {
        Some(3)
    } else if name_is(t, 'a', 'p', 'r') {
        Some(4)
    } else if name_is(t, 'm', 'a', 'y') {
        Some(5)
    } else if name_is(t, 'j', 'u', 'n') {
        Some(6)
    } else if name_is(t, 'j', 'u', 'l') {
        Some(7)
    } else if name_is(t, 'a', 'u', 'g') {
        Some(8)
    } else if name_is(t, 's', 'e', 'p') {
        Some(9)
    } else if name_is(t, 'o', 'c', 't') {
        Some(10)
    } else if name_is(t, 'n', 'o', 'v') {
        Some(11)
    } else if name_is(t, 'd', 'e', 'c') {
        Some(12)
    } else {
        None
    }
}

fn folds(c: char, l: char) -> (r: bool)
    ensures
        r == folds_to(c, l),
{
    c == l || (c as u32) + 32 == l as u32
}

fn is_name(t: &Vec<char>, a: char, b: char, c: char) -> (r: bool)
    ensures
        r == name_is(t@, a, b, c),
{
    t.len() == 3 && folds(t[0], a) && folds(t[1], b) && folds(t[2], c)
}

fn month_of(t: &Vec<char>) -> (r: Option<u8>)
    ensures
        r matches Some(m) ==> month_number(t@) == Some(m as int),
        r is None ==> month_number(t@) is None,
{
    if is_name(t, 'j', 'a', 'n') {
        Some(1)
    } else if is_name(t, 'f', 'e', 'b') {
        Some(2)
    } else if is_name(t, 'm', 'a', 'r') {
        Some(3)
    } else if is_name(t, 'a', 'p', 'r') {
        Some(4)
    } else if is_name(t, 'm', 'a', 'y') {
        Some(5)
    } else if is_name(t, 'j', 'u', 'n') {
        Some(6)
    } else if is_name(t, 'j', 'u', 'l') {
        Some(7)
    } else if is_name(t, 'a', 'u', 'g') {
        Some(8)
    } else if is_name(t, 's', 'e', 'p') {
        Some(9)
    } else if is_name(t, 'o', 'c', 't') {
        Some(10)
    } else if is_name(t, 'n', 'o', 'v') {
        Some(11)
    } else if is_name(t, 'd', 'e', 'c') {
        Some(12)
    } else {
        None
    }
}

/// Integer division rounding toward zero, as `/` on Rust integers.
pub open spec fn div_trunc(a: int, b: int) -> int {
    if a >= 0 {
        a / b
    } else {
        -((-a) / b)
    }
}

/// Remainder with the sign of the dividend, as `%` on Rust integers.
pub open spec fn rem_trunc(a: int, b: int) -> int {
    if a >= 0 {
        a % b
    } else {
        -((-a) % b)
    }
}

pub open spec fn i8_in(s: Seq<char>) -> Option<int> {
    int_in(s, true, -128, 127)
}

pub open spec fn i64_in(s: Seq<char>) -> Option<int> {
    int_in(s, true, i64::MIN as int, i64::MAX as int)
}

/// The `i`-th piece of `s` split on `:`, read as an `i8`.
pub open spec fn clock_field(s: Seq<char>, i: int) -> Option<int> {
    if i < pieces(s, ':').len() {
        i8_in(pieces(s, ':')[i])
    } else {
        None
    }
}

/// The timestamp written in `s` as `<weekday>, <day> <month> <year>
/// <h:m:s> <±hhmm>`: the whitespace-separated words are read by position (the
/// first is ignored, words after the sixth too); the offset's hundreds are
/// hours and its remainder minutes. The result is the instant in UTC: the
/// local date and time with the offset taken off. `None` where a word is
/// missing, a number does not read, or a field is out of the calendar's range.
pub open spec fn date_of(s: Seq<char>) -> Option<Timestamp> {
    let t = words(s);
    if t.len() < 6 {
        None
    } else {
        let day = i8_in(t[1]);
        let month = month_number(t[2]);
        let year = i64_in(t[3]);
        let hour = clock_field(t[4], 0);
        let minute = clock_field(t[4], 1);
        let second = clock_field(t[4], 2);
        let offset = i64_in(t[5]);
        if day is Some && month is Some && year is Some && hour is Some && minute is Some
            && second is Some && offset is Some {
            let (d, m, y) = (day->Some_0, month->Some_0, year->Some_0);
            let (h, mi, se) = (hour->Some_0, minute->Some_0, second->Some_0);
            let oh = div_trunc(offset->Some_0, 100);
            let om = rem_trunc(offset->Some_0, 100);
            if -YEAR_LIMIT <= y <= YEAR_LIMIT && valid_ymd(y, m, d) && valid_hms(h, mi, se) && -128
                <= oh <= 127 && valid_offset(oh, om) {
                let f = offset_applied((y, m, d, h, mi, se), (-oh, -om));
                Some(
                    Timestamp {
                        year: f.0 as i64,
                        month: f.1 as u8,
                        day: f.2 as i8,
                        hour: f.3 as i8,
                        minute: f.4 as i8,
                        second: f.5 as i8,
                    },
                )
            } else {
                None
            }
        } else {
            None
        }
    }
}

fn clock_part(parts: &Vec<Vec<char>>, i: usize) -> (r: Option<i8>)
    ensures
        r matches Some(v) ==> i < views(parts@).len() && i8_in(views(parts@)[i as int]) == Some(
            v as int,
        ),
        r is None ==> !(i < views(parts@).len() && i8_in(views(parts@)[i as int]) is Some),
{
    if i < parts.len() {
        match parse_int(&parts[i], true, -128, 127) {
            Some(v) => Some(v as i8),
            None => None,
        }
    } else {
        None
    }
}

/// Reads a date in the informal header form (see `date_of`).
pub fn decode_date(s: &str) -> (r: Option<Timestamp>)
    ensures
        r == date_of(s@),
{
    let chars = to_chars(s);
    let tokens = split_words(&chars);
    if tokens.len() < 6 {
        return None;
    }
    assert(views(tokens@)[1] == tokens@[1]@);
    assert(views(tokens@)[2] == tokens@[2]@);
    assert(views(tokens@)[3] == tokens@[3]@);
    assert(views(tokens@)[4] == tokens@[4]@);
    assert(views(tokens@)[5] == tokens@[5]@);
    let day = parse_int(&tokens[1], true, -128, 127);
    let month = month_of(&tokens[2]);
    let year = parse_int(&tokens[3], true, i64::MIN as i128, i64::MAX as i128);
    let time_tokens = split_char(&tokens[4], ':');
    let hour = clock_part(&time_tokens, 0);
    let minute = clock_part(&time_tokens, 1);
    let second = clock_part(&time_tokens, 2);
    let offset = parse_int(&tokens[5], true, i64::MIN as i128, i64::MAX as i128);
    match (day, month, year, hour, minute, second, offset) {
        (Some(d), Some(m), Some(y), Some(h), Some(mi), Some(se), Some(o)) => {
            let d = d as i8;
            let y = y as i64;
            let o = o as i64;
            let (oh, om): (i64, i64) = if o >= 0 {
                (o / 100, o % 100)
            } else if o == i64::MIN {
                return None;
            } else {
                (-((-o) / 100), -((-o) % 100))
            };
            if y < -YEAR_LIMIT || y > YEAR_LIMIT || oh < -128 || oh > 127 {
                return None;
            }
            if !date_is_valid(y, m, d) || !time_is_valid(h, mi, se) || !offset_is_valid(
                oh as i8,
                om as i8,
            ) {
                return None;
            }
            let (oh, om) = (oh as i8, om as i8);
            Some(apply_offset(y, m, d, (h, mi, se), (-oh, -om)))
        },
        _ => None,
    }
}


proof fn lemma_marker_shift(x: Seq<char>, y: Seq<char>, k: int)
    requires
        0 <= k,
    ensures
        marker_at(x + y, x.len() + k) == marker_at(y, k),
{
    if k + marker_len() <= y.len() {
        assert((x + y).subrange(x.len() + k, x.len() + k + marker_len()) =~= y.subrange(
            k,
            k + marker_len(),
        ));
    }
}

proof fn lemma_end_marker_shift(x: Seq<char>, y: Seq<char>, j: int)
    requires
        0 <= j,
    ensures
        end_marker_from(x + y, x.len() + j) == match end_marker_from(y, j) {
            Some(q) => Some(x.len() + q),
            None => None,
        },
    decreases y.len() - j,
{
    if j + 2 <= y.len() {
        assert((x + y)[x.len() + j] == y[j]);
        assert((x + y)[x.len() + j + 1] == y[j + 1]);
        if !(y[j] == '?' && y[j + 1] == '=') {
            lemma_end_marker_shift(x, y, j + 1);
        }
    }
}

proof fn lemma_end_marker_bound(s: Seq<char>, j: int)
    ensures
        end_marker_from(s, j) matches Some(q) ==> j <= q && q + 2 <= s.len(),
    decreases s.len() - j,
{
    if j >= 0 && j + 2 <= s.len() && !(s[j] == '?' && s[j + 1] == '=') {
        lemma_end_marker_bound(s, j + 1);
    }
}

/// Decoding from a position looks only at the text from there on.
proof fn lemma_decoded_shift(x: Seq<char>, y: Seq<char>, k: int)
    requires
        0 <= k,
    ensures
        decoded_from(x + y, x.len() + k) == decoded_from(y, k),
    decreases y.len() - k,
{
    let s = x + y;
    let i = x.len() + k;
    if k < y.len() {
        lemma_marker_shift(x, y, k);
        match marker_at(y, k) {
            Some(e) => {
                lemma_end_marker_shift(x, y, k + marker_len());
                lemma_end_marker_bound(y, k + marker_len());
                match end_marker_from(y, k + marker_len()) {
                    Some(q) => {
                        assert(s.subrange(i + marker_len(), x.len() + q) =~= y.subrange(
                            k + marker_len(),
                            q,
                        ));
                        lemma_decoded_shift(x, y, q + 2);
                    },
                    None => {
                        assert(s.subrange(i + marker_len(), s.len() as int) =~= y.subrange(
                            k + marker_len(),
                            y.len() as int,
                        ));
                    },
                }
            },
            None => {
                assert(s[i] == y[k]);
                lemma_decoded_shift(x, y, k + 1);
            },
        }
    }
}

/// Text with no start marker before position `n` is kept as it is up to there.
proof fn lemma_plain_prefix(s: Seq<char>, i: int, n: int)
    requires
        0 <= i <= n <= s.len(),
        forall|p: int| 0 <= p < n ==> marker_at(s, p) is None,
    ensures
        decoded_from(s, i) == s.subrange(i, n) + decoded_from(s, n),
    decreases n - i,
{
    if i < n {
        lemma_plain_prefix(s, i + 1, n);
        assert(s.subrange(i, n) =~= seq![s[i]] + s.subrange(i + 1, n));
    } else {
        assert(s.subrange(i, n) =~= Seq::<char>::empty());
    }
}

proof fn lemma_no_end_marker_in(s: Seq<char>, j: int, q: int)
    requires
        0 <= j <= q,
        q + 2 <= s.len(),
        s[q] == '?' && s[q + 1] == '=',
        forall|t: int| j <= t < q ==> !(#[trigger] s[t] == '?' && s[t + 1] == '='),
    ensures
        end_marker_from(s, j) == Some(q),
    decreases q - j,
{
    if j < q {
        lemma_no_end_marker_in(s, j + 1, q);
    }
}

/// An encoded word decodes on its own: where no start marker stands in the
/// text before it, that text is kept, the word (start marker, payload without
/// `?=`, end marker) becomes its decoded payload, and the text after it
/// decodes in the same way, whatever came before.
pub proof fn lemma_decode_word(
    a: Seq<char>,
    m: Seq<char>,
    e: Encoding,
    payload: Seq<char>,
    b: Seq<char>,
)
    requires
        m.len() == marker_len(),
        marker_at(m, 0) == Some(e),
        forall|p: int| 0 <= p < a.len() ==> marker_at(a + m, p) is None,
        forall|j: int|
            0 <= j < payload.len() - 1 ==> !(#[trigger] payload[j] == '?' && payload[j + 1] == '='),
    ensures
        decoded(a + m + payload + seq!['?', '='] + b) == a + payload_text(e, payload) + decoded(
            b,
        ),
{
    assert(m.subrange(0, marker_len()) =~= m);
    let w = m + payload + seq!['?', '='];
    let s = a + w + b;
    assert(s =~= a + (w + b));
    assert(s =~= a + m + payload + seq!['?', '='] + b);
    let la = a.len() as int;
    let lp = payload.len() as int;
    // the text before the word
    assert forall|p: int| 0 <= p < la implies marker_at(s, p) is None by {
        assert(marker_at(a + m, p) is None);
        assert(s.subrange(p, p + marker_len()) =~= (a + m).subrange(p, p + marker_len()));
    }
    lemma_plain_prefix(s, 0, la);
    assert(s.subrange(0, la) =~= a);
    // the word itself
    assert(s.subrange(la, la + marker_len()) =~= m);
    assert(marker_at(s, la) == Some(e));
    let q = la + marker_len() + lp;
    assert(s[q] == '?' && s[q + 1] == '=');
    assert forall|t: int| la + marker_len() <= t < q implies !(#[trigger] s[t] == '?' && s[t + 1] == '=') by {
        if t < q - 1 {
            assert(s[t] == payload[t - la - marker_len()]);
            assert(s[t + 1] == payload[t + 1 - la - marker_len()]);
        } else {
            assert(s[t + 1] == '?');
        }
    }
    lemma_no_end_marker_in(s, la + marker_len(), q);
    assert(s.subrange(la + marker_len(), q) =~= payload);
    assert(decoded_from(s, la) == payload_text(e, payload) + decoded_from(s, q + 2));
    // the text after it
    assert(s =~= (a + w) + b);
    lemma_decoded_shift(a + w, b, 0);
    assert((a + w).len() == q + 2);
    assert(decoded_from(s, q + 2) == decoded(b));
    assert(decoded(s) == a + (payload_text(e, payload) + decoded(b)));
    assert(a + (payload_text(e, payload) + decoded(b)) =~= a + payload_text(e, payload) + decoded(b));
}

/// `p` with each `_` turned into a space.
pub open spec fn spaced(p: Seq<char>) -> Seq<char> {
    p.map_values(|c: char| if c == '_' { ' ' } else { c })
}

proof fn lemma_q_text_plain(p: Seq<char>)
    requires
        forall|j: int| 0 <= j < p.len() ==> p[j] != '=',
    ensures
        q_text_after(p, seq![]) == spaced(p),
    decreases p.len(),
{
    if p.len() > 0 {
        let c = p[0];
        assert(c != '=');
        lemma_q_text_plain(p.drop_first());
        assert(utf8_lossy(seq![]) == Seq::<char>::empty());
        let lit = if c == '_' { ' ' } else { c };
        assert(q_text_after(p, seq![]) == utf8_lossy(seq![]) + seq![lit] + q_text_after(
            p.drop_first(),
            seq![],
        ));
        assert(spaced(p) =~= seq![lit] + spaced(p.drop_first()));
        assert(q_text_after(p, seq![]) =~= spaced(p));
    } else {
        assert(utf8_lossy(seq![]) == Seq::<char>::empty());
        assert(spaced(p) =~= Seq::<char>::empty());
    }
}

/// A quoted encoded word without escapes, between texts that hold no start
/// marker, decodes to its payload with `_` read as a space; the text around
/// it is kept as it is.
pub proof fn lemma_decode_quoted_plain(a: Seq<char>, m: Seq<char>, p: Seq<char>, b: Seq<char>)
    requires
        m == q_marker_upper() || m == q_marker_lower(),
        forall|k: int| 0 <= k < a.len() ==> marker_at(a + m, k) is None,
        forall|j: int| 0 <= j < p.len() ==> p[j] != '=',
        forall|k: int| 0 <= k < b.len() ==> marker_at(b, k) is None,
    ensures
        decoded(a + m + p + seq!['?', '='] + b) == a + spaced(p) + b,
{
    assert(m.subrange(0, marker_len()) =~= m);
    assert(marker_at(m, 0) == Some(Encoding::Quoted));
    assert forall|j: int| 0 <= j < p.len() - 1 implies !(#[trigger] p[j] == '?' && p[j + 1] == '=') by {
        assert(p[j + 1] != '=');
    }
    lemma_decode_word(a, m, Encoding::Quoted, p, b);
    lemma_q_text_plain(p);
    lemma_decode_plain(b);
}

/// A text with fewer than six words holds no date.
pub proof fn lemma_date_needs_six_words(s: Seq<char>)
    requires
        words(s).len() < 6,
    ensures
        date_of(s) is None,
{
}

} // verus!
