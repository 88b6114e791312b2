//! Character classes of the C library, on the low byte of an `int`.

use vstd::prelude::*;

verus! {

/// The byte a character class looks at: the low eight bits of the argument.
pub open spec fn low_byte(c: i32) -> u8 {
    c as u8
}

/// `'0'..='9'`
pub open spec fn is_digit_byte(b: u8) -> bool {
    48 <= b <= 57
}

/// `'A'..='Z'`
pub open spec fn is_upper_byte(b: u8) -> bool {
    65 <= b <= 90
}

/// `'a'..='z'`
pub open spec fn is_lower_byte(b: u8) -> bool {
    97 <= b <= 122
}

pub open spec fn is_alpha_byte(b: u8) -> bool {
    is_upper_byte(b) || is_lower_byte(b)
}

/// Space, tab, newline, carriage return, vertical tab and form feed
pub open spec fn is_space_byte(b: u8) -> bool {
    b == 32 || b == 9 || b == 10 || b == 13 || b == 0x0b || b == 0x0c
}

/// A decimal digit or one of `A..=F`, `a..=f`
pub open spec fn is_xdigit_byte(b: u8) -> bool {
    is_digit_byte(b) || (65 <= b <= 70) || (97 <= b <= 102)
}

/// From space to `~`
pub open spec fn is_print_byte(b: u8) -> bool {
    0x20 <= b <= 0x7e
}

/// Printable and not a space
pub open spec fn is_graph_byte(b: u8) -> bool {
    0x20 < b <= 0x7e
}

/// Below space, or DEL
pub open spec fn is_cntrl_byte(b: u8) -> bool {
    b < 0x20 || b == 0x7f
}

/// A C truth value: 1 for true, 0 for false.
pub open spec fn truth(b: bool) -> i32 {
    if b { 1 } else { 0 }
}

fn flag(b: bool) -> (r: i32)
    ensures
        r == truth(b),
{
    if b { 1 } else { 0 }
}

pub fn isdigit(c: i32) -> (r: i32)
    ensures
        r == truth(is_digit_byte(low_byte(c))),
{
    let b = c as u8;
    flag(b >= 48 && b <= 57)
}

pub fn isalpha(c: i32) -> (r: i32)
    ensures
        r == truth(is_alpha_byte(low_byte(c))),
{
    let b = c as u8;
    flag((b >= 65 && b <= 90) || (b >= 97 && b <= 122))
}

pub fn isalnum(c: i32) -> (r: i32)
    ensures
        r == truth(is_alpha_byte(low_byte(c)) || is_digit_byte(low_byte(c))),
{
    flag(isalpha(c) != 0 || isdigit(c) != 0)
}

pub fn isspace(c: i32) -> (r: i32)
    ensures
        r == truth(is_space_byte(low_byte(c))),
{
    let b = c as u8;
    flag(b == 32 || b == 9 || b == 10 || b == 13 || b == 0x0b || b == 0x0c)
}

pub fn isupper(c: i32) -> (r: i32)
    ensures
        r == truth(is_upper_byte(low_byte(c))),
{
    let b = c as u8;
    flag(b >= 65 && b <= 90)
}

pub fn islower(c: i32) -> (r: i32)
    ensures
        r == truth(is_lower_byte(low_byte(c))),
{
    let b = c as u8;
    flag(b >= 97 && b <= 122)
}

/// The character classes fit together: digits are hex digits, letters and digits are
/// printable and not blank, whitespace is not graphic, printable means graphic or the space,
/// control characters are not printable, and every byte is either printable or a control
/// character or above ASCII.
pub proof fn law_class_relations(b: u8)
    ensures
        is_digit_byte(b) ==> is_xdigit_byte(b) && is_graph_byte(b),
        is_alpha_byte(b) ==> is_graph_byte(b) && !is_digit_byte(b),
        is_upper_byte(b) ==> !is_lower_byte(b),
        is_space_byte(b) ==> !is_graph_byte(b),
        is_print_byte(b) <==> (is_graph_byte(b) || b == 32),
        is_cntrl_byte(b) ==> !is_print_byte(b),
        b < 128 ==> (is_print_byte(b) || is_cntrl_byte(b)),
        is_xdigit_byte(b) ==> is_digit_byte(b) || is_alpha_byte(b),
{
}

/// Changing case, on a byte value: `toupper` takes a small letter to its capital 32 below and
/// `tolower` takes it back, and the other way round; other bytes stay as they are.
pub proof fn law_case_round_trip(c: i32)
    requires
        0 <= c < 256,
    ensures
        ({
            let up = if is_lower_byte(low_byte(c)) { c - 32 } else { c as int };
            let down = if is_upper_byte(low_byte(c)) { c + 32 } else { c as int };
            &&& is_lower_byte(low_byte(c)) ==> is_upper_byte(up as u8) && up + 32 == c
            &&& is_upper_byte(low_byte(c)) ==> is_lower_byte(down as u8) && down - 32 == c
            &&& !is_alpha_byte(low_byte(c)) ==> up == c && down == c
        }),
{
    assert(low_byte(c) == c);
}

/// A letter in the low byte leaves room to move a case up or down.
proof fn lemma_letter_room(c: i32)
    by (bit_vector)
    ensures
        (c as u8) >= 97u8 ==> c >= -2147483616i32,
        (c as u8) <= 90u8 ==> c <= 2147483615i32,
{
}

/// A lowercase letter in the low byte moves down to its capital; anything else is returned as it is.
pub fn toupper(c: i32) -> (r: i32)
    ensures
        r == (if is_lower_byte(low_byte(c)) { c - 32 } else { c as int }),
{
    if islower(c) != 0 {
        proof {
            lemma_letter_room(c);
        }
        c - 32
    } else {
        c
    }
}

/// A capital letter in the low byte moves up to its lowercase form; anything else is returned as it is.
pub fn tolower(c: i32) -> (r: i32)
    ensures
        r == (if is_upper_byte(low_byte(c)) { c + 32 } else { c as int }),
{
    if isupper(c) != 0 {
        proof {
            lemma_letter_room(c);
        }
        c + 32
    } else {
        c
    }
}

pub fn isprint(c: i32) -> (r: i32)
    ensures
        r == truth(is_print_byte(low_byte(c))),
{
    let b = c as u8;
    flag(b >= 0x20 && b <= 0x7e)
}

pub fn isxdigit(c: i32) -> (r: i32)
    ensures
        r == truth(is_xdigit_byte(low_byte(c))),
{
    let b = c as u8;
    flag((b >= 48 && b <= 57) || (b >= 65 && b <= 70) || (b >= 97 && b <= 102))
}

pub fn iscntrl(c: i32) -> (r: i32)
    ensures
        r == truth(is_cntrl_byte(low_byte(c))),
{
    let b = c as u8;
    flag(b < 0x20 || b == 0x7f)
}

pub fn isgraph(c: i32) -> (r: i32)
    ensures
        r == truth(is_graph_byte(low_byte(c))),
{
    let b = c as u8;
    flag(b > 0x20 && b <= 0x7e)
}

/// Printable, not blank, and neither a letter nor a digit.
pub fn ispunct(c: i32) -> (r: i32)
    ensures
        r == truth(
            is_graph_byte(low_byte(c)) && !(is_alpha_byte(low_byte(c)) || is_digit_byte(
                low_byte(c),
            )),
        ),
{
    flag(isgraph(c) != 0 && isalnum(c) == 0)
}

} // verus!
