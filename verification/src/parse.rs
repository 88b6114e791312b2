//! Parsing of tagged log lines, as written by the kernel's tagged logger:
//! `ESC[{color}m{tag padded to 8 bytes}ESC[0m: {message}`.
use vstd::prelude::*;
use std::time::Instant;
use crate::text::{chars_of, string_from_chars, trim_end, trim_end_seq, trailing_space, is_white_space};

verus! {

#[verifier::external_type_specification]
#[verifier::external_body]
pub struct ExInstant(Instant);

pub struct LogEntry {
    pub tag: String,
    pub color: u8,
    pub message: String,
    pub timestamp: Instant,
}

/// Number of bytes in the UTF-8 encoding of a character
pub open spec fn utf8_len(c: char) -> int {
    let v = c as u32;
    if v < 0x80 {
        1
    } else if v < 0x800 {
        2
    } else if v < 0x10000 {
        3
    } else {
        4
    }
}

fn char_utf8_len(c: char) -> (r: usize)
    ensures
        r == utf8_len(c),
{
    let v = c as u32;
    if v < 0x80 {
        1
    } else if v < 0x800 {
        2
    } else if v < 0x10000 {
        3
    } else {
        4
    }
}

/// Walking from the front, the number of characters taken until at least
/// `n` bytes are covered, or the whole sequence
pub open spec fn chars_covering(s: Seq<char>, n: int) -> int
    decreases s.len(),
{
    if n <= 0 || s.len() == 0 {
        0
    } else {
        1 + chars_covering(s.drop_first(), n - utf8_len(s[0]))
    }
}

/// The number of bytes in those characters
pub open spec fn bytes_covering(s: Seq<char>, n: int) -> int
    decreases s.len(),
{
    if n <= 0 || s.len() == 0 {
        0
    } else {
        utf8_len(s[0]) + bytes_covering(s.drop_first(), n - utf8_len(s[0]))
    }
}

/// The position of the first occurrence of `c`, if any
pub open spec fn first_index_of(s: Seq<char>, c: char) -> Option<int>
    decreases s.len(),
{
    if s.len() == 0 {
        None
    } else if s[0] == c {
        Some(0)
    } else {
        match first_index_of(s.drop_first(), c) {
            Some(i) => Some(i + 1),
            None => None,
        }
    }
}

pub open spec fn is_digit(c: char) -> bool {
    '0' <= c <= '9'
}

/// The value of a string of decimal digits
pub open spec fn decimal_value(s: Seq<char>) -> int
    decreases s.len(),
{
    if s.len() == 0 {
        0
    } else {
        decimal_value(s.drop_last()) * 10 + (s.last() as int - '0' as int)
    }
}

/// What `u8::from_str` accepts: an optional `+`, then one or more decimal
/// digits whose value fits in a byte
pub open spec fn parse_u8(s: Seq<char>) -> Option<u8> {
    parse_digits_u8(unsigned_digits(s))
}

/// The text after an optional leading `+`
pub open spec fn unsigned_digits(s: Seq<char>) -> Seq<char> {
    if s.len() > 0 && s[0] == '+' {
        s.drop_first()
    } else {
        s
    }
}

pub open spec fn all_digits(s: Seq<char>) -> bool {
    forall|i: int| 0 <= i < s.len() ==> is_digit(#[trigger] s[i])
}

/// One or more decimal digits whose value fits in a byte
pub open spec fn parse_digits_u8(digits: Seq<char>) -> Option<u8> {
    if digits.len() > 0 && all_digits(digits) && decimal_value(digits) <= 255 {
        Some(decimal_value(digits) as u8)
    } else {
        None
    }
}

/// The parts of a tagged line after its colour code: the text after the
/// colour's `m`
pub open spec fn after_color(line: Seq<char>) -> Option<(u8, Seq<char>)> {
    if line.len() >= 2 && line[0] == '\u{1b}' && line[1] == '[' {
        let rest = line.skip(2);
        match first_index_of(rest, 'm') {
            Some(m) => match parse_u8(rest.take(m)) {
                Some(color) => Some((color, rest.skip(m + 1))),
                None => None,
            },
            None => None,
        }
    } else {
        None
    }
}

/// The marker that ends the tag of a tagged line
pub open spec fn tag_end_marker() -> Seq<char> {
    seq!['\u{1b}', '[', '0', 'm', ':', ' ']
}

/// A tagged line splits into its tag (without trailing whitespace), colour
/// and message. The tag field is the first eight bytes after the colour; a
/// line whose eighth byte falls inside a character does not match.
pub open spec fn parse_tagged(line: Seq<char>) -> Option<(Seq<char>, u8, Seq<char>)> {
    match after_color(line) {
        Some((color, rest)) => {
            if bytes_covering(rest, 8) != 8 {
                None
            } else {
                let k = chars_covering(rest, 8);
                let tail = rest.skip(k);
                if tail.len() >= 6 && tail.take(6) == tag_end_marker() {
                    Some((trim_end_seq(rest.take(k)), color, tail.skip(6)))
                } else {
                    None
                }
            }
        },
        None => None,
    }
}

proof fn lemma_covering_bounds(s: Seq<char>, n: int)
    ensures
        0 <= chars_covering(s, n) <= s.len(),
        bytes_covering(s, n) >= 0,
        n > 0 && bytes_covering(s, n) < n ==> chars_covering(s, n) == s.len(),
    decreases s.len(),
{
    if n > 0 && s.len() > 0 {
        lemma_covering_bounds(s.drop_first(), n - utf8_len(s[0]));
    }
}

fn index_of_char(s: &[char], c: char) -> (r: Option<usize>)
    ensures
        match r {
            Some(i) => first_index_of(s@, c) == Some(i as int) && i < s@.len(),
            None => first_index_of(s@, c) == None::<int>,
        },
{
    let mut i: usize = 0;
    while i < s.len()
        invariant
            i <= s@.len(),
            forall|k: int| 0 <= k < i ==> s@[k] != c,
        decreases s@.len() - i,
    {
        if s[i] == c {
            proof {
                lemma_first_index_found(s@, c, i as int);
            }
            return Some(i);
        }
        i = i + 1;
    }
    proof {
        lemma_first_index_absent(s@, c);
    }
    None
}

proof fn lemma_first_index_found(s: Seq<char>, c: char, i: int)
    requires
        0 <= i < s.len(),
        s[i] == c,
        forall|k: int| 0 <= k < i ==> s[k] != c,
    ensures
        first_index_of(s, c) == Some(i),
    decreases i,
{
    if i > 0 {
        lemma_first_index_found(s.drop_first(), c, i - 1);
    }
}

proof fn lemma_first_index_absent(s: Seq<char>, c: char)
    requires
        forall|k: int| 0 <= k < s.len() ==> s[k] != c,
    ensures
        first_index_of(s, c) == None::<int>,
    decreases s.len(),
{
    if s.len() > 0 {
        lemma_first_index_absent(s.drop_first(), c);
    }
}

/// Parse a byte the way `u8::from_str` does
pub fn parse_color(s: &[char]) -> (r: Option<u8>)
    ensures
        r == parse_u8(s@),
{
    let start: usize = if s.len() > 0 && s[0] == '+' { 1 } else { 0 };
    let ghost digits = unsigned_digits(s@);
    assert(digits =~= s@.skip(start as int));
    if start >= s.len() {
        return None;
    }
    let mut value: u32 = 0;
    let mut i: usize = start;
    while i < s.len()
        invariant
            start <= i <= s@.len(),
            start < s@.len(),
            digits == s@.skip(start as int),
            digits == unsigned_digits(s@),
            forall|k: int| start <= k < i ==> is_digit(#[trigger] s@[k]),
            value == decimal_value(s@.subrange(start as int, i as int)),
            value <= 255,
        decreases s@.len() - i,
    {
        let c = s[i];
        if !('0' <= c && c <= '9') {
            proof {
                assert(digits[i - start] == s@[i as int]);
                assert(!is_digit(digits[i - start]));
                assert(!all_digits(digits));
            }
            return None;
        }
        let d = (c as u32) - ('0' as u32);
        assert(s@.subrange(start as int, i + 1).drop_last() =~= s@.subrange(start as int, i as int));
        if value * 10 + d > 255 {
            proof {
                if all_digits(digits) {
                    lemma_decimal_value_grows(digits, (i + 1 - start) as int);
                    assert(digits.take((i + 1 - start) as int) =~= s@.subrange(start as int, i + 1));
                }
            }
            return None;
        }
        value = value * 10 + d;
        i = i + 1;
    }
    assert(s@.subrange(start as int, s@.len() as int) =~= digits);
    Some(value as u8)
}


/// The characters of `v` from `from` up to `to`
pub fn sub_chars(v: &[char], from: usize, to: usize) -> (r: Vec<char>)
    requires
        from <= to <= v@.len(),
    ensures
        r@ == v@.subrange(from as int, to as int),
{
    let mut out: Vec<char> = Vec::new();
    let mut i: usize = from;
    while i < to
        invariant
            from <= i <= to,
            to <= v@.len(),
            out@ == v@.subrange(from as int, i as int),
        decreases to - i,
    {
        out.push(v[i]);
        assert(v@.subrange(from as int, i + 1) =~= v@.subrange(from as int, i as int).push(v@[i as int]));
        i = i + 1;
    }
    out
}

/// The colour code of a tagged line and the text after it
fn split_color(line: &[char]) -> (r: Option<(u8, Vec<char>)>)
    ensures
        match r {
            Some((color, rest)) => after_color(line@) == Some((color, rest@)),
            None => after_color(line@) == None::<(u8, Seq<char>)>,
        },
{
    if line.len() < 2 || line[0] != '\u{1b}' || line[1] != '[' {
        return None;
    }
    let rest = sub_chars(line, 2, line.len());
    assert(rest@ =~= line@.skip(2));
    let m_pos = match index_of_char(rest.as_slice(), 'm') {
        Some(m) => m,
        None => {
            return None;
        },
    };
    let color_str = sub_chars(rest.as_slice(), 0, m_pos);
    assert(color_str@ =~= rest@.take(m_pos as int));
    let color = match parse_color(color_str.as_slice()) {
        Some(c) => c,
        None => {
            return None;
        },
    };
    let rest2 = sub_chars(rest.as_slice(), m_pos + 1, rest.len());
    assert(rest2@ =~= rest@.skip(m_pos + 1));
    Some((color, rest2))
}

/// The characters, and their bytes, that the eight-byte tag field spans
fn tag_extent(rest: &[char]) -> (r: (usize, usize))
    ensures
        r.0 == chars_covering(rest@, 8),
        r.1 == bytes_covering(rest@, 8),
        r.0 <= rest@.len(),
        r.1 < 8 ==> r.0 == rest@.len(),
{
    let mut k: usize = 0;
    let mut bytes: usize = 0;
    assert(rest@.skip(0) =~= rest@);
    while bytes < 8 && k < rest.len()
        invariant
            k <= rest@.len(),
            bytes <= 8 + 4,
            bytes_covering(rest@, 8) == bytes + bytes_covering(rest@.skip(k as int), 8 - bytes),
            chars_covering(rest@, 8) == k + chars_covering(rest@.skip(k as int), 8 - bytes),
        decreases rest@.len() - k,
    {
        assert(rest@.skip(k as int).drop_first() =~= rest@.skip(k + 1));
        assert(rest@.skip(k as int)[0] == rest@[k as int]);
        bytes = bytes + char_utf8_len(rest[k]);
        k = k + 1;
    }
    proof {
        lemma_covering_bounds(rest@.skip(k as int), 8 - bytes);
        if k == rest@.len() {
            assert(rest@.skip(k as int).len() == 0);
        }
    }
    (k, bytes)
}

fn try_parse_tagged(line: &[char]) -> (r: Option<(Vec<char>, u8, Vec<char>)>)
    ensures
        match r {
            Some((tag, color, message)) => parse_tagged(line@) == Some((tag@, color, message@)),
            None => parse_tagged(line@) == None::<(Seq<char>, u8, Seq<char>)>,
        },
{
    let (color, rest2) = match split_color(line) {
        Some(parts) => parts,
        None => {
            return None;
        },
    };
    let (k, bytes) = tag_extent(rest2.as_slice());
    if bytes != 8 {
        return None;
    }
    let tail = sub_chars(rest2.as_slice(), k, rest2.len());
    assert(tail@ =~= rest2@.skip(k as int));
    if tail.len() < 6 || tail[0] != '\u{1b}' || tail[1] != '[' || tail[2] != '0' || tail[3] != 'm' || tail[4] != ':' || tail[5] != ' ' {
        proof {
            if tail@.len() >= 6 {
                assert(tail@.take(6)[0] == tail@[0] && tail@.take(6)[1] == tail@[1] && tail@.take(6)[2] == tail@[2]);
                assert(tail@.take(6)[3] == tail@[3] && tail@.take(6)[4] == tail@[4] && tail@.take(6)[5] == tail@[5]);
                assert(tail@.take(6) != tag_end_marker());
            }
        }
        return None;
    }
    assert(tail@.take(6) =~= tag_end_marker());
    let tag_chars = sub_chars(rest2.as_slice(), 0, k);
    assert(tag_chars@ =~= rest2@.take(k as int));
    let tag = trim_end(tag_chars.as_slice());
    let message = sub_chars(tail.as_slice(), 6, tail.len());
    assert(message@ =~= tail@.skip(6));
    Some((tag, color, message))
}

/// The fields a line yields: its tag, colour and message when it is tagged,
/// and an empty tag, colour 0 and the whole line otherwise
pub open spec fn parsed_fields(line: Seq<char>) -> (Seq<char>, u8, Seq<char>) {
    match parse_tagged(line) {
        Some(fields) => fields,
        None => (Seq::empty(), 0, line),
    }
}

/// Parse a line in the tagged logger's ANSI format. Lines that do not match
/// the pattern are kept whole as untagged messages.
pub fn parse_log_line(line: &str, timestamp: Instant) -> (r: LogEntry)
    ensures
        (r.tag@, r.color, r.message@) == parsed_fields(line@),
        r.timestamp == timestamp,
{
    let chars = chars_of(line);
    match try_parse_tagged(chars.as_slice()) {
        Some((tag, color, message)) => LogEntry {
            tag: string_from_chars(tag.as_slice()),
            color,
            message: string_from_chars(message.as_slice()),
            timestamp,
        },
        None => LogEntry {
            tag: String::new(),
            color: 0,
            message: string_from_chars(chars.as_slice()),
            timestamp,
        },
    }
}

/// The character of a decimal digit
pub open spec fn digit_char(d: u8) -> char {
    (d + 48) as char
}

/// A byte written in decimal, as `{}` formats it: no sign, no leading zeros
pub open spec fn decimal_text(c: u8) -> Seq<char> {
    if c < 10 {
        seq![digit_char(c)]
    } else if c < 100 {
        seq![digit_char(c / 10), digit_char(c % 10)]
    } else {
        seq![digit_char(c / 100), digit_char((c / 10) % 10), digit_char(c % 10)]
    }
}

/// `k` spaces
pub open spec fn spaces(k: int) -> Seq<char> {
    Seq::new(k as nat, |i: int| ' ')
}

/// The line the kernel's tagged logger writes for colour `c`, tag `t` and message `m`:
/// `ESC[{c}m{t, padded with spaces to 8}ESC[0m: {m}`
pub open spec fn logged_line(c: u8, t: Seq<char>, m: Seq<char>) -> Seq<char> {
    seq!['\u{1b}', '['] + decimal_text(c) + seq!['m'] + t + spaces(8 - t.len()) + tag_end_marker() + m
}

proof fn lemma_ascii_covering(s: Seq<char>, n: int)
    requires
        0 <= n <= s.len(),
        forall|i: int| 0 <= i < n ==> (#[trigger] s[i] as u32) < 0x80,
    ensures
        bytes_covering(s, n) == n,
        chars_covering(s, n) == n,
    decreases n,
{
    if n > 0 {
        assert((s[0] as u32) < 0x80);
        assert forall|i: int| 0 <= i < n - 1 implies (#[trigger] s.drop_first()[i] as u32) < 0x80 by {
            assert(s.drop_first()[i] == s[i + 1]);
        }
        lemma_ascii_covering(s.drop_first(), n - 1);
    }
}

proof fn lemma_padding_trimmed(t: Seq<char>, k: int)
    requires
        k >= 0,
        t.len() == 0 || !is_white_space(t.last()),
    ensures
        trailing_space(t + spaces(k)) == k,
    decreases k,
{
    if k > 0 {
        let x = t + spaces(k);
        assert(x.last() == ' ');
        assert(x.drop_last() =~= t + spaces(k - 1));
        lemma_padding_trimmed(t, k - 1);
    } else {
        assert(t + spaces(0) =~= t);
    }
}

proof fn lemma_digit_char(d: u8)
    requires
        d < 10,
    ensures
        digit_char(d) as int == d + 48,
        is_digit(digit_char(d)),
        digit_char(d) != 'm',
{
}

proof fn lemma_decimal_text_parses(c: u8)
    ensures
        parse_u8(decimal_text(c)) == Some(c),
        forall|i: int| 0 <= i < decimal_text(c).len() ==> #[trigger] decimal_text(c)[i] != 'm',
        decimal_text(c).len() > 0,
{
    let d = decimal_text(c);
    lemma_digit_char(c % 10);
    lemma_digit_char((c / 10) % 10);
    if c < 10 {
        lemma_digit_char(c);
    } else if c < 100 {
        lemma_digit_char(c / 10);
    } else {
        lemma_digit_char(c / 100);
    }
    assert(unsigned_digits(d) == d);
    assert(all_digits(d));
    if c < 10 {
        assert(d.drop_last().len() == 0);
        assert(decimal_value(d.drop_last()) == 0);
        assert(d.last() == digit_char(c));
        assert(decimal_value(d) == c);
    } else if c < 100 {
        assert(d.drop_last() =~= seq![digit_char(c / 10)]);
        assert(d.drop_last().drop_last().len() == 0);
        assert(decimal_value(d.drop_last().drop_last()) == 0);
        assert(d.drop_last().last() == digit_char(c / 10));
        assert(decimal_value(d.drop_last()) == c / 10);
        assert(d.last() == digit_char(c % 10));
        assert(decimal_value(d) == (c / 10) * 10 + c % 10);
    } else {
        assert(d.drop_last() =~= seq![digit_char(c / 100), digit_char((c / 10) % 10)]);
        assert(d.drop_last().drop_last() =~= seq![digit_char(c / 100)]);
        assert(d.drop_last().drop_last().drop_last().len() == 0);
        assert(decimal_value(d.drop_last().drop_last().drop_last()) == 0);
        assert(d.drop_last().drop_last().last() == digit_char(c / 100));
        assert(decimal_value(d.drop_last().drop_last()) == c / 100);
        assert(d.drop_last().last() == digit_char((c / 10) % 10));
        assert(decimal_value(d.drop_last()) == (c / 100) * 10 + (c / 10) % 10);
        assert(d.last() == digit_char(c % 10));
        assert(decimal_value(d) == ((c / 100) * 10 + (c / 10) % 10) * 10 + c % 10);
    }
}

/// A line written by the tagged logger reads back as what was logged: for an ASCII tag of
/// at most eight characters without trailing whitespace, the parsed tag, colour and message
/// are the ones written.
pub proof fn law_logged_line_round_trip(c: u8, t: Seq<char>, m: Seq<char>)
    requires
        t.len() <= 8,
        forall|i: int| 0 <= i < t.len() ==> (#[trigger] t[i] as u32) < 0x80,
        t.len() == 0 || !is_white_space(t.last()),
    ensures
        parsed_fields(logged_line(c, t, m)) == (t, c, m),
{
    let line = logged_line(c, t, m);
    let d = decimal_text(c);
    let t8 = t + spaces(8 - t.len());
    let rest = line.skip(2);
    lemma_decimal_text_parses(c);
    assert(rest =~= d + seq!['m'] + t8 + tag_end_marker() + m);
    assert(rest[d.len() as int] == 'm');
    assert forall|k: int| 0 <= k < d.len() implies rest[k] != 'm' by {
        assert(rest[k] == d[k]);
    }
    lemma_first_index_found(rest, 'm', d.len() as int);
    assert(rest.take(d.len() as int) =~= d);
    let r2 = rest.skip(d.len() as int + 1);
    assert(r2 =~= t8 + tag_end_marker() + m);
    assert(after_color(line) == Some((c, r2)));
    assert forall|i: int| 0 <= i < 8 implies (#[trigger] r2[i] as u32) < 0x80 by {
        assert(r2[i] == t8[i]);
        if i >= t.len() {
            assert(t8[i] == ' ');
        } else {
            assert(t8[i] == t[i]);
        }
    }
    lemma_ascii_covering(r2, 8);
    let tail = r2.skip(8);
    assert(tail =~= tag_end_marker() + m);
    assert(tail.take(6) =~= tag_end_marker());
    assert(tail.skip(6) =~= m);
    assert(r2.take(8) =~= t8);
    lemma_padding_trimmed(t, 8 - t.len());
    assert(trim_end_seq(t8) =~= t);
}

/// A longer prefix of digits never has a smaller value
proof fn lemma_decimal_value_grows(s: Seq<char>, k: int)
    requires
        0 <= k <= s.len(),
        forall|i: int| 0 <= i < s.len() ==> is_digit(#[trigger] s[i]),
    ensures
        decimal_value(s.take(k)) <= decimal_value(s),
    decreases s.len() - k,
{
    if k < s.len() {
        lemma_decimal_value_grows(s, k + 1);
        assert(s.take(k + 1).drop_last() =~= s.take(k));
        lemma_decimal_value_nonneg(s.take(k));
    } else {
        assert(s.take(k) =~= s);
    }
}

proof fn lemma_decimal_value_nonneg(s: Seq<char>)
    requires
        forall|i: int| 0 <= i < s.len() ==> is_digit(#[trigger] s[i]),
    ensures
        decimal_value(s) >= 0,
    decreases s.len(),
{
    if s.len() > 0 {
        lemma_decimal_value_nonneg(s.drop_last());
    }
}

} // verus!
