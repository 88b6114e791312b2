//! The formatting engine of the C library's `printf` family, over a format held in a byte
//! slice and a list of arguments.
//!
//! Bytes past the end of the format read as NUL, which ends it. Widths and precisions are
//! 32-bit numbers, read from the format in wrapping arithmetic. An argument of the wrong kind,
//! or a missing one, reads as the word 0, a null string, the float 0 or no place to store.

use vstd::prelude::*;
use crate::cstr::{byte_at, c_len, c_str, lemma_nul_from, nul_from};

verus! {

/// A floating-point argument, taken apart: its sign, its integer part, and the digits of its
/// fraction one after another.
pub struct FloatParts {
    pub negative: bool,
    pub int_part: u64,
    pub frac_digits: Vec<u8>,
}

/// One argument of a call.
pub enum FormatArg {
    /// A 32-bit word: an `int`, an `unsigned`, a character or a pointer shown with `%p`.
    Word(u32),
    /// A string given by pointer; the bytes from there, up to a NUL or the end.
    Str(Vec<u8>),
    /// A null pointer.
    Null,
    Float(FloatParts),
    /// A place `%n` stores the count of bytes written so far into.
    Count,
}

/// What was written, and the stores of `%n`: the argument's index and the count.
pub struct Formatted {
    pub bytes: Vec<u8>,
    pub stores: Vec<(usize, i32)>,
}

/// A conversion specification, read from after its `%`.
pub struct Conversion {
    pub left: bool,
    pub zero: bool,
    pub plus: bool,
    pub space: bool,
    pub hash: bool,
    pub width: u32,
    pub precision: Option<u32>,
    pub conv: u8,
}

pub open spec fn is_flag(c: u8) -> bool {
    c == 45 || c == 48 || c == 43 || c == 32 || c == 35
}

pub open spec fn is_decimal(c: u8) -> bool {
    48 <= c <= 57
}

/// The first index from `i` that holds no flag.
pub open spec fn flags_end(fmt: Seq<u8>, i: int) -> int
    decreases fmt.len() - i,
{
    if 0 <= i < fmt.len() && is_flag(fmt[i]) {
        flags_end(fmt, i + 1)
    } else {
        i
    }
}

/// The first index from `i` that holds no decimal digit.
pub open spec fn number_end(fmt: Seq<u8>, i: int) -> int
    decreases fmt.len() - i,
{
    if 0 <= i < fmt.len() && is_decimal(fmt[i]) {
        number_end(fmt, i + 1)
    } else {
        i
    }
}

/// The decimal digits in `i..end`, read in wrapping 32-bit arithmetic.
pub open spec fn number_value(fmt: Seq<u8>, i: int, end: int) -> u32
    decreases end - i,
{
    if end <= i {
        0
    } else {
        number_value(fmt, i, end - 1).wrapping_mul(10).wrapping_add((fmt[end - 1] - 48) as u32)
    }
}

/// The flag byte `c` occurs in `i..end`.
pub open spec fn has_flag(fmt: Seq<u8>, i: int, end: int, c: u8) -> bool {
    exists|k: int| i <= k < end && fmt[k] == c
}

/// The word an argument gives, 0 for one of another kind or a missing one.
pub open spec fn word_arg(args: Seq<FormatArg>, a: int) -> u32 {
    if 0 <= a < args.len() {
        match args[a] {
            FormatArg::Word(w) => w,
            _ => 0,
        }
    } else {
        0
    }
}

/// A width or a precision at `i`: `*` takes the next argument, digits give a number.
/// The value, the index after it and the index of the next argument.
pub open spec fn amount(fmt: Seq<u8>, i: int, args: Seq<FormatArg>, a: int) -> (u32, int, int) {
    if byte_at(fmt, i) == 42 {
        (word_arg(args, a), i + 1, a + 1)
    } else {
        (number_value(fmt, i, number_end(fmt, i)), number_end(fmt, i), a)
    }
}

/// The index after a length modifier at `i`: `l`, `ll`, `h`, `hh`, `z`, `j` or `t`.
pub open spec fn length_end(fmt: Seq<u8>, i: int) -> int {
    let c = byte_at(fmt, i);
    if c == 108 || c == 104 {
        if byte_at(fmt, i + 1) == c {
            i + 2
        } else {
            i + 1
        }
    } else if c == 122 || c == 106 || c == 116 {
        i + 1
    } else {
        i
    }
}

/// The conversion specification read from `i` (just after its `%`) with the arguments from
/// `a`: the specification, the index after it and the index of the conversion's argument.
pub open spec fn conversion_at(fmt: Seq<u8>, i: int, args: Seq<FormatArg>, a: int) -> (
    Conversion,
    int,
    int,
) {
    let fe = flags_end(fmt, i);
    let (width, we, a1) = amount(fmt, fe, args, a);
    let (precision, pe, a2) = if byte_at(fmt, we) == 46 {
        let (p, e, na) = amount(fmt, we + 1, args, a1);
        (Some(p), e, na)
    } else {
        (None, we, a1)
    };
    let le = length_end(fmt, pe);
    (
        Conversion {
            left: has_flag(fmt, i, fe, 45),
            zero: has_flag(fmt, i, fe, 48),
            plus: has_flag(fmt, i, fe, 43),
            space: has_flag(fmt, i, fe, 32),
            hash: has_flag(fmt, i, fe, 35),
            width,
            precision,
            conv: byte_at(fmt, le),
        },
        le + 1,
        a2,
    )
}

proof fn lemma_flags_end(fmt: Seq<u8>, i: int)
    requires
        0 <= i,
    ensures
        i <= flags_end(fmt, i),
        flags_end(fmt, i) <= if i < fmt.len() { fmt.len() as int } else { i },
    decreases fmt.len() - i,
{
    if 0 <= i < fmt.len() && is_flag(fmt[i]) {
        lemma_flags_end(fmt, i + 1);
    }
}

proof fn lemma_number_end(fmt: Seq<u8>, i: int)
    requires
        0 <= i,
    ensures
        i <= number_end(fmt, i),
        number_end(fmt, i) <= if i < fmt.len() { fmt.len() as int } else { i },
    decreases fmt.len() - i,
{
    if 0 <= i < fmt.len() && is_decimal(fmt[i]) {
        lemma_number_end(fmt, i + 1);
    }
}

/// A conversion specification ends after where it starts, and at most one past the format's
/// end.
pub proof fn lemma_conversion_bounds(fmt: Seq<u8>, i: int, args: Seq<FormatArg>, a: int)
    requires
        0 <= i <= fmt.len(),
    ensures
        i < conversion_at(fmt, i, args, a).1 <= fmt.len() + 1,
        a <= conversion_at(fmt, i, args, a).2 <= a + 2,
{
    let fe = flags_end(fmt, i);
    lemma_flags_end(fmt, i);
    lemma_number_end(fmt, fe);
    if byte_at(fmt, fe) != 42 {
        lemma_number_end(fmt, fe);
    }
    let we = amount(fmt, fe, args, a).1;
    if byte_at(fmt, we) == 46 {
        lemma_number_end(fmt, we + 1);
    }
}

/// The character of a digit.
pub open spec fn digit_char(d: nat, upper: bool) -> u8 {
    if d < 10 {
        (48 + d) as u8
    } else if upper {
        (65 + d - 10) as u8
    } else {
        (97 + d - 10) as u8
    }
}

/// The digits of `v` in `base`, most significant first, without leading zeros (`0` for zero).
pub open spec fn digits_of(v: nat, base: nat, upper: bool) -> Seq<u8>
    decreases v,
{
    if base < 2 || v < base {
        seq![digit_char(v, upper)]
    } else {
        proof {
            assert(v / base < v) by (nonlinear_arith)
                requires
                    base >= 2,
                    v >= base,
            ;
        }
        digits_of(v / base, base, upper).push(digit_char(v % base, upper))
    }
}

/// Two to the power `n`.
pub open spec fn two_pow(n: nat) -> nat
    decreases n,
{
    if n == 0 {
        1
    } else {
        2 * two_pow((n - 1) as nat)
    }
}

/// A number below `2^n` has at most `n` digits in any base from 2.
/// The value of a digit character: `0`-`9`, then `a`-`z` or `A`-`Z` from 10
pub open spec fn digit_value_of(c: u8) -> int {
    if 48 <= c <= 57 {
        c - 48
    } else if 97 <= c <= 122 {
        c - 87
    } else if 65 <= c <= 90 {
        c - 55
    } else {
        -1
    }
}

/// The number a string of digits stands for in `base`, most significant first
pub open spec fn digits_value(d: Seq<u8>, base: nat) -> int
    decreases d.len(),
{
    if d.len() == 0 {
        0
    } else {
        digits_value(d.drop_last(), base) * base + digit_value_of(d.last())
    }
}

/// The digits written for a number are its representation in the base: each is a digit of the
/// base, in upper case letters exactly when asked, they read back as the number, and only the
/// number 0 starts with a `0`.
pub proof fn law_digits_represent(v: nat, base: nat, upper: bool)
    requires
        2 <= base <= 16,
    ensures
        digits_value(digits_of(v, base, upper), base) == v,
        forall|i: int| 0 <= i < digits_of(v, base, upper).len() ==> 0 <= #[trigger] digit_value_of(digits_of(v, base, upper)[i]) < base,
        forall|i: int| 0 <= i < digits_of(v, base, upper).len() ==> {
            let c = #[trigger] digits_of(v, base, upper)[i];
            (48 <= c <= 57) || (upper && 65 <= c <= 70) || (!upper && 97 <= c <= 102)
        },
        digits_of(v, base, upper).len() >= 1,
        v != 0 ==> digits_of(v, base, upper)[0] != 48,
    decreases v,
{
    let d = digits_of(v, base, upper);
    if v < base {
        assert(d.drop_last().len() == 0);
        assert(digit_value_of(digit_char(v, upper)) == v);
        assert(digits_value(d, base) == digits_value(d.drop_last(), base) * base + v);
    } else {
        let q = v / base;
        let r = v % base;
        assert(q < v) by (nonlinear_arith)
            requires base >= 2, v >= base, q == v / base;
        assert(q >= 1) by (nonlinear_arith)
            requires base >= 2, v >= base, q == v / base;
        law_digits_represent(q, base, upper);
        let p = digits_of(q, base, upper);
        assert(d == p.push(digit_char(r, upper)));
        assert(d.drop_last() =~= p);
        assert(v == q * base + r) by (nonlinear_arith)
            requires q == v / base, r == v % base, base >= 2;
        assert(r < base) by (nonlinear_arith)
            requires r == v % base, base >= 2;
        assert(digit_value_of(digit_char(r, upper)) == r);
        assert(digits_value(d, base) == digits_value(p, base) * base + r);
        assert forall|i: int| 0 <= i < d.len() implies 0 <= #[trigger] digit_value_of(d[i]) < base by {
            if i < p.len() {
                assert(d[i] == p[i]);
            }
        }
        assert forall|i: int| 0 <= i < d.len() implies {
            let c = #[trigger] d[i];
            (48 <= c <= 57) || (upper && 65 <= c <= 70) || (!upper && 97 <= c <= 102)
        } by {
            if i < p.len() {
                assert(d[i] == p[i]);
            }
        }
        assert(d[0] == p[0]);
    }
}

pub proof fn lemma_digits_len(v: nat, base: nat, upper: bool, n: nat)
    requires
        base >= 2,
        n >= 1,
        v < two_pow(n),
    ensures
        digits_of(v, base, upper).len() <= n,
    decreases v,
{
    if v >= base {
        let q = v / base;
        assert(q * base <= v && q < v) by (nonlinear_arith)
            requires
                q == v / base,
                base >= 2,
                v >= base,
        ;
        assert(q * 2 <= q * base) by (nonlinear_arith)
            requires
                base >= 2,
        ;
        assert(two_pow(0) == 1);
        assert(two_pow(n) == 2 * two_pow((n - 1) as nat));
        assert(n >= 2);
        lemma_digits_len(q, base, upper, (n - 1) as nat);
    }
}

/// A 64-bit number has at most 64 digits in any base from 2.
pub proof fn lemma_u64_digits_len(v: u64, base: nat, upper: bool)
    requires
        base >= 2,
    ensures
        digits_of(v as nat, base, upper).len() <= 64,
{
    assert(two_pow(64) == 0x1_0000_0000_0000_0000) by {
        reveal_with_fuel(two_pow, 65);
    }
    lemma_digits_len(v as nat, base, upper, 64);
}

fn digit_byte(d: u64, upper: bool) -> (r: u8)
    requires
        d < 16,
    ensures
        r == digit_char(d as nat, upper),
{
    if d < 10 {
        48 + d as u8
    } else if upper {
        65 + (d - 10) as u8
    } else {
        97 + (d - 10) as u8
    }
}

/// The digits of `val` in `base`, most significant first.
pub fn format_uint(val: u64, base: u64, upper: bool) -> (r: Vec<u8>)
    requires
        2 <= base <= 16,
    ensures
        r@ == digits_of(val as nat, base as nat, upper),
        r@.len() <= 64,
{
    proof {
        lemma_u64_digits_len(val, base as nat, upper);
    }
    let mut rev: Vec<u8> = Vec::new();
    let mut cur = val;
    loop
        invariant_except_break
            2 <= base <= 16,
            digits_of(val as nat, base as nat, upper) == digits_of(cur as nat, base as nat, upper)
                + rev@.reverse(),
        ensures
            digits_of(val as nat, base as nat, upper) == rev@.reverse(),
        decreases cur,
    {
        let c = digit_byte(cur % base, upper);
        if cur < base {
            proof {
                assert(cur % base == cur) by (nonlinear_arith)
                    requires
                        cur < base,
                ;
                assert(c == digit_char(cur as nat, upper));
                assert(digits_of(cur as nat, base as nat, upper) =~= seq![c]);
                assert(rev@.push(c).reverse() =~= seq![c] + rev@.reverse());
            }
            rev.push(c);
            break;
        }
        proof {
            assert(rev@.push(c).reverse() =~= seq![c] + rev@.reverse());
            assert(digits_of(cur as nat, base as nat, upper) == digits_of(
                (cur / base) as nat,
                base as nat,
                upper,
            ).push(c));
            assert(digits_of((cur / base) as nat, base as nat, upper).push(c) + rev@.reverse()
                =~= digits_of((cur / base) as nat, base as nat, upper) + rev@.push(c).reverse());
        }
        rev.push(c);
        cur = cur / base;
    }
    let mut out: Vec<u8> = Vec::new();
    let mut k = rev.len();
    while k > 0
        invariant
            k <= rev@.len(),
            out@ == rev@.reverse().take(rev@.len() - k),
        decreases k,
    {
        k = k - 1;
        out.push(rev[k]);
        proof {
            assert(out@ =~= rev@.reverse().take(rev@.len() - k));
        }
    }
    proof {
        assert(out@ =~= rev@.reverse());
    }
    out
}

/// The magnitude of an integer.
pub open spec fn magnitude(v: int) -> nat {
    if v < 0 {
        (-v) as nat
    } else {
        v as nat
    }
}

/// The digits of the magnitude of `val` in `base`; the sign is left to the caller.
pub fn format_int(val: i64, base: u64, upper: bool) -> (r: Vec<u8>)
    requires
        2 <= base <= 16,
        val != i64::MIN,
    ensures
        r@ == digits_of(magnitude(val as int), base as nat, upper),
        r@.len() <= 64,
{
    let m: u64 = if val < 0 {
        (-val) as u64
    } else {
        val as u64
    };
    format_uint(m, base, upper)
}

fn at(fmt: &[u8], i: usize) -> (r: u8)
    ensures
        r == byte_at(fmt@, i as int),
{
    if i < fmt.len() {
        fmt[i]
    } else {
        0
    }
}

fn parse_flags(fmt: &[u8], i: usize) -> (r: (usize, bool, bool, bool, bool, bool))
    requires
        i <= fmt@.len(),
    ensures
        r.0 == flags_end(fmt@, i as int),
        r.1 == has_flag(fmt@, i as int, r.0 as int, 45),
        r.2 == has_flag(fmt@, i as int, r.0 as int, 48),
        r.3 == has_flag(fmt@, i as int, r.0 as int, 43),
        r.4 == has_flag(fmt@, i as int, r.0 as int, 32),
        r.5 == has_flag(fmt@, i as int, r.0 as int, 35),
{
    let mut left = false;
    let mut zero = false;
    let mut plus = false;
    let mut space = false;
    let mut hash = false;
    let mut k = i;
    while k < fmt.len() && (fmt[k] == 45 || fmt[k] == 48 || fmt[k] == 43 || fmt[k] == 32
        || fmt[k] == 35)
        invariant
            i <= k <= fmt@.len(),
            flags_end(fmt@, k as int) == flags_end(fmt@, i as int),
            left == has_flag(fmt@, i as int, k as int, 45),
            zero == has_flag(fmt@, i as int, k as int, 48),
            plus == has_flag(fmt@, i as int, k as int, 43),
            space == has_flag(fmt@, i as int, k as int, 32),
            hash == has_flag(fmt@, i as int, k as int, 35),
        decreases fmt@.len() - k,
    {
        let c = fmt[k];
        proof {
            assert(fmt@[k as int] == c);
            assert forall|b: u8| has_flag(fmt@, i as int, k + 1, b) == (has_flag(
                fmt@,
                i as int,
                k as int,
                b,
            ) || c == b) by {
                if has_flag(fmt@, i as int, k + 1, b) && !has_flag(fmt@, i as int, k as int, b) {
                    let w = choose|w: int| i <= w < k + 1 && fmt@[w] == b;
                    assert(w == k);
                }
            }
        }
        if c == 45 {
            left = true;
        } else if c == 48 {
            zero = true;
        } else if c == 43 {
            plus = true;
        } else if c == 32 {
            space = true;
        } else {
            hash = true;
        }
        k = k + 1;
    }
    (k, left, zero, plus, space, hash)
}

fn parse_number(fmt: &[u8], i: usize) -> (r: (u32, usize))
    requires
        i <= fmt@.len(),
    ensures
        r.0 == number_value(fmt@, i as int, number_end(fmt@, i as int)),
        r.1 == number_end(fmt@, i as int),
{
    let mut value: u32 = 0;
    let mut k = i;
    while k < fmt.len() && fmt[k] >= 48 && fmt[k] <= 57
        invariant
            i <= k <= fmt@.len(),
            number_end(fmt@, k as int) == number_end(fmt@, i as int),
            value == number_value(fmt@, i as int, k as int),
        decreases fmt@.len() - k,
    {
        value = value.wrapping_mul(10).wrapping_add((fmt[k] - 48) as u32);
        k = k + 1;
    }
    (value, k)
}

fn word_of(args: &[FormatArg], a: usize) -> (r: u32)
    ensures
        r == word_arg(args@, a as int),
{
    if a < args.len() {
        match &args[a] {
            FormatArg::Word(w) => *w,
            _ => 0,
        }
    } else {
        0
    }
}

fn parse_amount(fmt: &[u8], i: usize, args: &[FormatArg], a: usize) -> (r: (u32, usize, usize))
    requires
        i <= fmt@.len() < usize::MAX,
        a < usize::MAX,
    ensures
        r.0 == amount(fmt@, i as int, args@, a as int).0,
        r.1 == amount(fmt@, i as int, args@, a as int).1,
        r.2 == amount(fmt@, i as int, args@, a as int).2,
{
    if at(fmt, i) == 42 {
        (word_of(args, a), i + 1, a + 1)
    } else {
        let (v, e) = parse_number(fmt, i);
        (v, e, a)
    }
}

fn parse_conversion(fmt: &[u8], i: usize, args: &[FormatArg], a: usize) -> (r: (
    Conversion,
    usize,
    usize,
))
    requires
        i <= fmt@.len() < usize::MAX,
        a < usize::MAX - 2,
    ensures
        r.0 == conversion_at(fmt@, i as int, args@, a as int).0,
        r.1 == conversion_at(fmt@, i as int, args@, a as int).1,
        r.2 == conversion_at(fmt@, i as int, args@, a as int).2,
{
    proof {
        lemma_conversion_bounds(fmt@, i as int, args@, a as int);
        lemma_flags_end(fmt@, i as int);
    }
    let (fe, left, zero, plus, space, hash) = parse_flags(fmt, i);
    proof {
        lemma_number_end(fmt@, fe as int);
    }
    let (width, we, a1) = parse_amount(fmt, fe, args, a);
    let (precision, pe, a2) = if at(fmt, we) == 46 {
        proof {
            lemma_number_end(fmt@, we + 1);
        }
        let (p, e, na) = parse_amount(fmt, we + 1, args, a1);
        (Some(p), e, na)
    } else {
        (None, we, a1)
    };
    let c = at(fmt, pe);
    let le = if c == 108 || c == 104 {
        if at(fmt, pe + 1) == c {
            pe + 2
        } else {
            pe + 1
        }
    } else if c == 122 || c == 106 || c == 116 {
        pe + 1
    } else {
        pe
    };
    let conv = at(fmt, le);
    (Conversion { left, zero, plus, space, hash, width, precision, conv }, le + 1, a2)
}

/// `n` copies of `c`.
pub open spec fn repeated(c: u8, n: int) -> Seq<u8> {
    Seq::new(n as nat, |k: int| c)
}

/// How many padding bytes bring a text of `len` bytes to `width`.
pub open spec fn pad_for(width: u32, len: int) -> int {
    if width > len {
        width - len
    } else {
        0
    }
}

/// `%d`, `%i`: a sign or the sign flag's byte, then the decimal digits; padded with spaces in
/// front, with zeros after the sign (flag `0`), or with spaces behind (flag `-`).
pub open spec fn signed_text(c: Conversion, val: i32) -> Seq<u8> {
    let digits = digits_of(magnitude(val as int), 10, false);
    let prefix: Seq<u8> = if val < 0 {
        seq![45u8]
    } else if c.plus {
        seq![43u8]
    } else if c.space {
        seq![32u8]
    } else {
        Seq::empty()
    };
    let pad = pad_for(c.width, (digits.len() + prefix.len()) as int);
    if c.left {
        prefix + digits + repeated(32, pad)
    } else if c.zero {
        prefix + repeated(48, pad) + digits
    } else {
        repeated(32, pad) + prefix + digits
    }
}

/// A text padded to the width: behind it with spaces (flag `-`), else in front of it with
/// zeros (flag `0`) or spaces.
pub open spec fn padded_text(c: Conversion, text: Seq<u8>) -> Seq<u8> {
    let pad = pad_for(c.width, text.len() as int);
    if c.left {
        text + repeated(32, pad)
    } else if c.zero {
        repeated(48, pad) + text
    } else {
        repeated(32, pad) + text
    }
}

/// `%x`, `%X`: hexadecimal digits, after `0x` or `0X` with flag `#` when the value is not 0.
pub open spec fn hex_text(c: Conversion, val: u32, upper: bool) -> Seq<u8> {
    let digits = digits_of(val as nat, 16, upper);
    let prefix: Seq<u8> = if c.hash && val != 0 {
        seq![48u8, if upper { 88u8 } else { 120u8 }]
    } else {
        Seq::empty()
    };
    let pad = pad_for(c.width, (digits.len() + prefix.len()) as int);
    if c.left {
        prefix + digits + repeated(32, pad)
    } else if c.zero {
        prefix + repeated(48, pad) + digits
    } else {
        repeated(32, pad) + prefix + digits
    }
}

/// The layout of a padded conversion `t` around its `body` (sign or prefix, then digits; the
/// zeros of flag `0` go between the first `lead` bytes of the body and the rest): `t` is as
/// long as the width or the body, whichever is longer. With flag `-` the body comes first and
/// spaces follow; with flag `0` zeros stand after the lead; otherwise spaces stand in front.
pub open spec fn laid_out(t: Seq<u8>, body: Seq<u8>, lead: int, width: u32, left: bool, zero: bool) -> bool {
    let n = body.len() as int;
    let pad = t.len() - n;
    &&& t.len() == (if width > n { width as int } else { n })
    &&& left ==> t.take(n) == body && forall|i: int| n <= i < t.len() ==> #[trigger] t[i] == 32
    &&& !left && zero ==> t.take(lead) == body.take(lead) && t.skip(lead + pad) == body.skip(lead)
        && forall|i: int| lead <= i < lead + pad ==> #[trigger] t[i] == 48
    &&& !left && !zero ==> t.skip(pad) == body && forall|i: int| 0 <= i < pad ==> #[trigger] t[i] == 32
}

proof fn lemma_laid_out(prefix: Seq<u8>, digits: Seq<u8>, width: u32, left: bool, zero: bool, t: Seq<u8>)
    requires
        t == (if left {
            prefix + digits + repeated(32, pad_for(width, (digits.len() + prefix.len()) as int))
        } else if zero {
            prefix + repeated(48, pad_for(width, (digits.len() + prefix.len()) as int)) + digits
        } else {
            repeated(32, pad_for(width, (digits.len() + prefix.len()) as int)) + prefix + digits
        }),
    ensures
        laid_out(t, prefix + digits, prefix.len() as int, width, left, zero),
{
    let body = prefix + digits;
    let n = body.len() as int;
    let pad = pad_for(width, n);
    let r = repeated(if left { 32u8 } else if zero { 48u8 } else { 32u8 }, pad);
    if left {
        assert(t.take(n) =~= body);
        assert forall|i: int| n <= i < t.len() implies #[trigger] t[i] == 32 by {
            assert(t[i] == r[i - n]);
        }
    } else if zero {
        let l = prefix.len() as int;
        assert(t.take(l) =~= body.take(l));
        assert(t.skip(l + pad) =~= body.skip(l));
        assert forall|i: int| l <= i < l + pad implies #[trigger] t[i] == 48 by {
            assert(t[i] == r[i - l]);
        }
    } else {
        assert(t.skip(pad) =~= body);
        assert forall|i: int| 0 <= i < pad implies #[trigger] t[i] == 32 by {
            assert(t[i] == r[i]);
        }
    }
}

/// `%x` and `%X` write the hexadecimal digits of the value, after `0x` or `0X` with flag `#`
/// when the value is not 0. Without flags `-` and `0` the width is filled with spaces in front;
/// with `-`, spaces behind; with `0`, zeros between the prefix and the digits.
pub proof fn law_hex_layout(c: Conversion, val: u32, upper: bool)
    ensures
        ({
            let prefix: Seq<u8> = if c.hash && val != 0 {
                seq![48u8, if upper { 88u8 } else { 120u8 }]
            } else {
                Seq::empty()
            };
            laid_out(hex_text(c, val, upper), prefix + digits_of(val as nat, 16, upper), prefix.len() as int, c.width, c.left, c.zero)
        }),
{
    let prefix: Seq<u8> = if c.hash && val != 0 {
        seq![48u8, if upper { 88u8 } else { 120u8 }]
    } else {
        Seq::empty()
    };
    lemma_laid_out(prefix, digits_of(val as nat, 16, upper), c.width, c.left, c.zero, hex_text(c, val, upper));
}

/// `%d` and `%i` write a `-` for a negative value (else `+` with flag `+`, else a space with
/// flag ` `), then the decimal digits of its magnitude, laid out in the width as `%x` is.
pub proof fn law_signed_layout(c: Conversion, val: i32)
    ensures
        ({
            let sign: Seq<u8> = if val < 0 {
                seq![45u8]
            } else if c.plus {
                seq![43u8]
            } else if c.space {
                seq![32u8]
            } else {
                Seq::empty()
            };
            laid_out(signed_text(c, val), sign + digits_of(magnitude(val as int), 10, false), sign.len() as int, c.width, c.left, c.zero)
        }),
{
    let sign: Seq<u8> = if val < 0 {
        seq![45u8]
    } else if c.plus {
        seq![43u8]
    } else if c.space {
        seq![32u8]
    } else {
        Seq::empty()
    };
    lemma_laid_out(sign, digits_of(magnitude(val as int), 10, false), c.width, c.left, c.zero, signed_text(c, val));
}

/// A text padded to the width (for `%u` and the floats) is laid out as `%x` is, with no prefix.
pub proof fn law_padded_layout(c: Conversion, text: Seq<u8>)
    ensures
        laid_out(padded_text(c, text), text, 0, c.width, c.left, c.zero),
{
    lemma_laid_out(Seq::empty(), text, c.width, c.left, c.zero, padded_text(c, text));
    assert(Seq::<u8>::empty() + text =~= text);
}

/// The text `%s` gives for an argument: the string cut at its NUL and at the precision,
/// padded with spaces; `(null)` for anything but a string.
pub open spec fn string_text(c: Conversion, args: Seq<FormatArg>, a: int) -> Seq<u8> {
    if 0 <= a < args.len() && args[a] is Str {
        let v = args[a]->Str_0@;
        let max: int = match c.precision {
            Some(p) => p as int,
            None => u32::MAX as int,
        };
        let len = if c_len(v) < max { c_len(v) } else { max };
        let pad = pad_for(c.width, len);
        if c.left {
            v.take(len) + repeated(32, pad)
        } else {
            repeated(32, pad) + v.take(len)
        }
    } else {
        seq![40u8, 110, 117, 108, 108, 41]
    }
}

/// `%s` writes the string argument up to its NUL, cut to at most the precision where one is
/// given, laid out in the width with spaces only (flag `0` adds no zeros): behind it with flag
/// `-`, else in front. Anything but a string argument writes `(null)`.
pub proof fn law_string_layout(c: Conversion, args: Seq<FormatArg>, a: int)
    ensures
        0 <= a < args.len() && args[a] is Str && c_len(args[a]->Str_0@) <= u32::MAX ==> ({
            let v = args[a]->Str_0@;
            let t = string_text(c, args, a);
            exists|len: int| {
                &&& 0 <= len <= c_len(v)
                &&& (c.precision matches Some(p) ==> len <= p)
                &&& (len < c_len(v) ==> c.precision == Some(len as u32))
                &&& #[trigger] laid_out(t, v.take(len), 0, c.width, c.left, false)
            }
        }),
        !(0 <= a < args.len() && args[a] is Str) ==> string_text(c, args, a) == seq![40u8, 110, 117, 108, 108, 41],
{
    if 0 <= a < args.len() && args[a] is Str && c_len(args[a]->Str_0@) <= u32::MAX {
        let v = args[a]->Str_0@;
        let max: int = match c.precision {
            Some(p) => p as int,
            None => u32::MAX as int,
        };
        let len = if c_len(v) < max { c_len(v) } else { max };
        crate::cstr::lemma_nul_from(v, 0);
        let body = v.take(len);
        assert(body.len() == len);
        let pad = pad_for(c.width, (body.len() + Seq::<u8>::empty().len()) as int);
        assert(pad == pad_for(c.width, len));
        assert(Seq::<u8>::empty() + body =~= body);
        if c.left {
            assert(string_text(c, args, a) =~= Seq::<u8>::empty() + body + repeated(32, pad));
        } else {
            assert(string_text(c, args, a) =~= repeated(32, pad) + Seq::<u8>::empty() + body);
        }
        lemma_laid_out(Seq::empty(), body, c.width, c.left, false, string_text(c, args, a));
        if len < c_len(v) {
            assert(c.precision is Some);
        }
        assert(laid_out(string_text(c, args, a), v.take(len), 0, c.width, c.left, false));
    }
}

/// The fraction digit `k` of a float, 0 past those given.
pub open spec fn frac_digit(digits: Seq<u8>, k: int) -> u8 {
    if 0 <= k < digits.len() {
        digits[k]
    } else {
        0
    }
}

/// The fraction digits of a float, as characters.
pub open spec fn frac_chars(digits: Seq<u8>, prec: u32) -> Seq<u8> {
    Seq::new(prec as nat, |k: int| 48u8.wrapping_add(frac_digit(digits, k)))
}

/// A float written out in full: sign, integer part, and the point and fraction digits.
pub open spec fn float_body(negative: bool, int_part: u64, digits: Seq<u8>, prec: u32) -> Seq<u8> {
    (if negative { seq![45u8] } else { Seq::empty() }) + digits_of(int_part as nat, 10, false) + if prec
        > 0 {
        seq![46u8] + frac_chars(digits, prec)
    } else {
        Seq::empty()
    }
}

/// A float written with `prec` fraction digits, in at most 64 bytes: a minus sign when
/// negative, the integer part, and the point and fraction digits when `prec` is not 0.
pub open spec fn float_text(negative: bool, int_part: u64, digits: Seq<u8>, prec: u32) -> Seq<
    u8,
> {
    let body = float_body(negative, int_part, digits, prec);
    if body.len() <= 64 {
        body
    } else {
        body.take(64)
    }
}

/// The text of a float argument, or of the float 0 for anything else.
pub open spec fn float_arg_text(c: Conversion, args: Seq<FormatArg>, a: int) -> Seq<u8> {
    let prec = match c.precision {
        Some(p) => p,
        None => 6u32,
    };
    if 0 <= a < args.len() && args[a] is Float {
        let f = args[a]->Float_0;
        float_text(f.negative, f.int_part, f.frac_digits@, prec)
    } else {
        float_text(false, 0, Seq::empty(), prec)
    }
}

pub open spec fn is_float_conv(conv: u8) -> bool {
    conv == 102 || conv == 70 || conv == 103 || conv == 71 || conv == 101 || conv == 69
}

/// The conversion takes an argument.
pub open spec fn takes_arg(conv: u8) -> bool {
    conv == 100 || conv == 105 || conv == 117 || conv == 120 || conv == 88 || conv == 111 || conv
        == 112 || conv == 115 || conv == 99 || conv == 110 || is_float_conv(conv)
}

/// What a conversion writes, its argument at `a`, after `emitted` bytes.
pub open spec fn rendered(c: Conversion, args: Seq<FormatArg>, a: int) -> Seq<u8> {
    let w = word_arg(args, a);
    let conv = c.conv;
    if conv == 100 || conv == 105 {
        signed_text(c, w as i32)
    } else if conv == 117 {
        padded_text(c, digits_of(w as nat, 10, false))
    } else if conv == 120 || conv == 88 {
        hex_text(c, w, conv == 88)
    } else if conv == 111 {
        digits_of(w as nat, 8, false)
    } else if conv == 112 {
        seq![48u8, 120u8] + digits_of(w as nat, 16, false)
    } else if conv == 115 {
        string_text(c, args, a)
    } else if conv == 99 {
        seq![w as u8]
    } else if is_float_conv(conv) {
        padded_text(c, float_arg_text(c, args, a))
    } else if conv == 37 {
        seq![37u8]
    } else if conv == 110 {
        Seq::empty()
    } else {
        seq![37u8, conv]
    }
}

/// What each conversion writes for its argument: `%u` the decimal digits of the word, padded;
/// `%o` its octal digits; `%p` `0x` and its hexadecimal digits; `%c` its low byte; `%%` a `%`;
/// `%n` nothing; `%x`/`%X` and `%d`/`%i` as their layout laws say; and an unknown conversion
/// is written back as it stands.
pub proof fn law_conversion_texts(c: Conversion, args: Seq<FormatArg>, a: int)
    ensures
        ({
            let w = word_arg(args, a);
            let t = rendered(c, args, a);
            &&& c.conv == 117 ==> laid_out(t, digits_of(w as nat, 10, false), 0, c.width, c.left, c.zero)
                && digits_value(digits_of(w as nat, 10, false), 10) == w
            &&& c.conv == 111 ==> digits_value(t, 8) == w && forall|i: int| 0 <= i < t.len() ==> 48 <= #[trigger] t[i] <= 55
            &&& c.conv == 112 ==> t.take(2) == seq![48u8, 120u8] && digits_value(t.skip(2), 16) == w
            &&& c.conv == 99 ==> t == seq![w as u8]
            &&& c.conv == 37 ==> t == seq![37u8]
            &&& c.conv == 110 ==> t.len() == 0
            &&& c.conv == 120 ==> t == hex_text(c, w, false)
            &&& c.conv == 88 ==> t == hex_text(c, w, true)
            &&& (c.conv == 100 || c.conv == 105) ==> t == signed_text(c, w as i32)
        }),
{
    let w = word_arg(args, a);
    law_padded_layout(c, digits_of(w as nat, 10, false));
    law_digits_represent(w as nat, 10, false);
    law_digits_represent(w as nat, 8, false);
    law_digits_represent(w as nat, 16, false);
    let t = rendered(c, args, a);
    if c.conv == 111 {
        assert forall|i: int| 0 <= i < t.len() implies 48 <= #[trigger] t[i] <= 55 by {
            assert(0 <= digit_value_of(t[i]) < 8);
        }
    }
    if c.conv == 112 {
        assert(t.take(2) =~= seq![48u8, 120u8]);
        assert(t.skip(2) =~= digits_of(w as nat, 16, false));
    }
}

/// The store a conversion makes: `%n` with a place at `a` records the count.
pub open spec fn stored(c: Conversion, args: Seq<FormatArg>, a: int, emitted: int) -> Seq<
    (usize, i32),
> {
    if c.conv == 110 && 0 <= a < args.len() && args[a] is Count {
        seq![(a as usize, emitted as i32)]
    } else {
        Seq::empty()
    }
}

/// What the format from `i` writes and stores, with the arguments from `a`, after `emitted`
/// bytes.
pub open spec fn format_from(fmt: Seq<u8>, args: Seq<FormatArg>, i: int, a: int, emitted: int) -> (
    Seq<u8>,
    Seq<(usize, i32)>,
)
    decreases fmt.len() - i,
{
    if i < 0 || i >= fmt.len() || fmt[i] == 0 {
        (Seq::empty(), Seq::empty())
    } else if fmt[i] != 37 {
        let rest = format_from(fmt, args, i + 1, a, emitted + 1);
        (seq![fmt[i]] + rest.0, rest.1)
    } else if byte_at(fmt, i + 1) == 0 {
        (Seq::empty(), Seq::empty())
    } else {
        let (c, next, ca) = conversion_at(fmt, i + 1, args, a);
        let bytes = rendered(c, args, ca);
        let stores = stored(c, args, ca, emitted);
        let na = if takes_arg(c.conv) { ca + 1 } else { ca };
        proof {
            lemma_conversion_bounds(fmt, i + 1, args, a);
        }
        if next < fmt.len() {
            let rest = format_from(fmt, args, next, na, emitted + bytes.len());
            (bytes + rest.0, stores + rest.1)
        } else {
            (bytes, stores)
        }
    }
}

/// What a whole format writes and stores.
pub open spec fn formatted(fmt: Seq<u8>, args: Seq<FormatArg>) -> (Seq<u8>, Seq<(usize, i32)>) {
    format_from(fmt, args, 0, 0, 0)
}

proof fn lemma_plain_text_from(fmt: Seq<u8>, args: Seq<FormatArg>, i: int, a: int, emitted: int)
    requires
        0 <= i <= c_len(fmt),
        forall|k: int| 0 <= k < c_len(fmt) ==> fmt[k] != 37,
    ensures
        format_from(fmt, args, i, a, emitted) == (fmt.subrange(i, c_len(fmt)), Seq::<(usize, i32)>::empty()),
    decreases fmt.len() - i,
{
    lemma_nul_from(fmt, 0);
    if i < c_len(fmt) {
        assert(fmt[i] != 0);
        lemma_plain_text_from(fmt, args, i + 1, a, emitted + 1);
        assert(seq![fmt[i]] + fmt.subrange(i + 1, c_len(fmt)) =~= fmt.subrange(i, c_len(fmt)));
    } else {
        assert(fmt.subrange(i, c_len(fmt)) =~= Seq::<u8>::empty());
    }
}

/// A format without a `%` writes its text as it stands, up to its NUL, and stores nothing.
pub proof fn law_plain_format_is_copied(fmt: Seq<u8>, args: Seq<FormatArg>)
    requires
        forall|k: int| 0 <= k < c_len(fmt) ==> fmt[k] != 37,
    ensures
        formatted(fmt, args) == (c_str(fmt), Seq::<(usize, i32)>::empty()),
{
    lemma_nul_from(fmt, 0);
    lemma_plain_text_from(fmt, args, 0, 0, 0);
    assert(fmt.subrange(0, c_len(fmt)) =~= c_str(fmt));
}

fn push_repeat(out: &mut Vec<u8>, b: u8, n: u32)
    ensures
        final(out)@ == old(out)@ + repeated(b, n as int),
{
    let ghost start = out@;
    let mut k: u32 = 0;
    while k < n
        invariant
            k <= n,
            out@ == start + repeated(b, k as int),
        decreases n - k,
    {
        out.push(b);
        k = k + 1;
        proof {
            assert(out@ =~= start + repeated(b, k as int));
        }
    }
}

fn push_all(out: &mut Vec<u8>, text: &Vec<u8>)
    ensures
        final(out)@ == old(out)@ + text@,
{
    let mut copy = text.clone();
    proof {
        assert(copy@ =~= text@);
    }
    out.append(&mut copy);
}

fn pad_amount(width: u32, len: usize) -> (r: u32)
    ensures
        r == pad_for(width, len as int),
{
    if (width as usize) > len {
        (width as usize - len) as u32
    } else {
        0
    }
}

fn push_signed(out: &mut Vec<u8>, c: &Conversion, val: i32)
    ensures
        final(out)@ == old(out)@ + signed_text(*c, val),
{
    let digits = format_int(val as i64, 10, false);
    let prefix: u8 = if val < 0 {
        45
    } else if c.plus {
        43
    } else if c.space {
        32
    } else {
        0
    };
    let prefix_len: usize = if prefix != 0 { 1 } else { 0 };
    let pad = pad_amount(c.width, digits.len() + prefix_len);
    let ghost prefix_seq: Seq<u8> = if prefix != 0 { seq![prefix] } else { Seq::empty() };
    let ghost start = out@;
    if !c.left && !c.zero {
        push_repeat(out, 32, pad);
    }
    if prefix != 0 {
        out.push(prefix);
    }
    if !c.left && c.zero {
        push_repeat(out, 48, pad);
    }
    push_all(out, &digits);
    if c.left {
        push_repeat(out, 32, pad);
    }
    proof {
        assert(magnitude(val as i64 as int) == magnitude(val as int));
        if c.left {
            assert(out@ =~= start + (prefix_seq + digits@ + repeated(32, pad as int)));
        } else if c.zero {
            assert(out@ =~= start + (prefix_seq + repeated(48, pad as int) + digits@));
        } else {
            assert(out@ =~= start + (repeated(32, pad as int) + prefix_seq + digits@));
        }
    }
}

fn push_padded(out: &mut Vec<u8>, c: &Conversion, text: &Vec<u8>)
    ensures
        final(out)@ == old(out)@ + padded_text(*c, text@),
{
    let pad = pad_amount(c.width, text.len());
    let ghost start = out@;
    if !c.left {
        push_repeat(out, if c.zero { 48 } else { 32 }, pad);
    }
    push_all(out, text);
    if c.left {
        push_repeat(out, 32, pad);
    }
    proof {
        if c.left {
            assert(out@ =~= start + (text@ + repeated(32, pad as int)));
        } else if c.zero {
            assert(out@ =~= start + (repeated(48, pad as int) + text@));
        } else {
            assert(out@ =~= start + (repeated(32, pad as int) + text@));
        }
    }
}

fn push_hex(out: &mut Vec<u8>, c: &Conversion, val: u32, upper: bool)
    ensures
        final(out)@ == old(out)@ + hex_text(*c, val, upper),
{
    let digits = format_uint(val as u64, 16, upper);
    let with_prefix = c.hash && val != 0;
    let prefix_len: usize = if with_prefix { 2 } else { 0 };
    let pad = pad_amount(c.width, digits.len() + prefix_len);
    let x: u8 = if upper { 88 } else { 120 };
    let ghost prefix_seq: Seq<u8> = if with_prefix { seq![48u8, x] } else { Seq::empty() };
    let ghost start = out@;
    if !c.left && !c.zero {
        push_repeat(out, 32, pad);
    }
    if with_prefix {
        out.push(48);
        out.push(x);
    }
    if !c.left && c.zero {
        push_repeat(out, 48, pad);
    }
    push_all(out, &digits);
    if c.left {
        push_repeat(out, 32, pad);
    }
    proof {
        if c.left {
            assert(out@ =~= start + (prefix_seq + digits@ + repeated(32, pad as int)));
        } else if c.zero {
            assert(out@ =~= start + (prefix_seq + repeated(48, pad as int) + digits@));
        } else {
            assert(out@ =~= start + (repeated(32, pad as int) + prefix_seq + digits@));
        }
    }
}

fn string_len(v: &Vec<u8>, max: u32) -> (r: usize)
    ensures
        r == (if c_len(v@) < max { c_len(v@) } else { max as int }),
{
    proof {
        lemma_nul_from(v@, 0);
    }
    let mut k: usize = 0;
    while k < v.len() && (k as u64) < (max as u64) && v[k] != 0
        invariant
            0 <= k <= nul_from(v@, 0),
            k <= max,
            nul_from(v@, 0) <= v@.len(),
            nul_from(v@, k as int) == nul_from(v@, 0),
        decreases v@.len() - k,
    {
        proof {
            lemma_nul_from(v@, k + 1);
        }
        k = k + 1;
    }
    k
}

fn push_string(out: &mut Vec<u8>, c: &Conversion, args: &[FormatArg], a: usize)
    ensures
        final(out)@ == old(out)@ + string_text(*c, args@, a as int),
{
    let ghost start = out@;
    if a < args.len() {
        if let FormatArg::Str(v) = &args[a] {
            let max = match c.precision {
                Some(p) => p,
                None => u32::MAX,
            };
            let len = string_len(v, max);
            proof {
                lemma_nul_from(v@, 0);
            }
            let pad = pad_amount(c.width, len);
            if !c.left {
                push_repeat(out, 32, pad);
            }
            let ghost before = out@;
            let mut k: usize = 0;
            while k < len
                invariant
                    k <= len,
                    len <= c_len(v@) <= v@.len(),
                    out@ == before + v@.take(k as int),
                decreases len - k,
            {
                out.push(v[k]);
                k = k + 1;
                proof {
                    assert(out@ =~= before + v@.take(k as int));
                }
            }
            if c.left {
                push_repeat(out, 32, pad);
            }
            proof {
                lemma_nul_from(v@, 0);
                if c.left {
                    assert(out@ =~= start + (v@.take(len as int) + repeated(32, pad as int)));
                } else {
                    assert(out@ =~= start + (repeated(32, pad as int) + v@.take(len as int)));
                }
            }
            return;
        }
    }
    out.push(40);
    out.push(110);
    out.push(117);
    out.push(108);
    out.push(108);
    out.push(41);
    proof {
        assert(out@ =~= start + seq![40u8, 110, 117, 108, 108, 41]);
    }
}

fn push_capped(text: &mut Vec<u8>, b: u8, body: Ghost<Seq<u8>>, pos: Ghost<int>)
    requires
        0 <= pos@ < body@.len(),
        body@[pos@] == b,
        old(text)@ == body@.take(if pos@ < 64 { pos@ } else { 64 }),
    ensures
        final(text)@ == body@.take(if pos@ + 1 < 64 { pos@ + 1 } else { 64 }),
{
    if text.len() < 64 {
        text.push(b);
        proof {
            assert(text@ =~= body@.take(pos@ + 1));
        }
    }
}

fn float_bytes(c: &Conversion, args: &[FormatArg], a: usize) -> (r: Vec<u8>)
    ensures
        r@ == float_arg_text(*c, args@, a as int),
{
    let empty: Vec<u8> = Vec::new();
    let (negative, int_part, digits) = if a < args.len() {
        match &args[a] {
            FormatArg::Float(f) => (f.negative, f.int_part, &f.frac_digits),
            _ => (false, 0u64, &empty),
        }
    } else {
        (false, 0u64, &empty)
    };
    let prec = match c.precision {
        Some(p) => p,
        None => 6,
    };
    let ghost body = float_body(negative, int_part, digits@, prec);
    let mut text: Vec<u8> = Vec::new();
    let ghost sign: Seq<u8> = if negative { seq![45u8] } else { Seq::empty() };
    let ints = format_uint(int_part, 10, false);
    if negative {
        text.push(45);
    }
    proof {
        assert(text@ =~= body.take(sign.len() as int));
    }
    let mut j: usize = 0;
    while j < ints.len()
        invariant
            j <= ints@.len(),
            ints@ == digits_of(int_part as nat, 10, false),
            body == float_body(negative, int_part, digits@, prec),
            sign == (if negative { seq![45u8] } else { Seq::<u8>::empty() }),
            sign.len() + ints@.len() <= 65,
            text@ == body.take(
                if sign.len() + j < 64 { sign.len() + j } else { 64 },
            ),
        decreases ints@.len() - j,
    {
        proof {
            assert(body[sign.len() + j] == ints@[j as int]);
        }
        push_capped(&mut text, ints[j], Ghost(body), Ghost(sign.len() + j as int));
        j = j + 1;
    }
    let ghost head: int = (sign.len() + ints@.len()) as int;
    if prec > 0 {
        proof {
            assert(body[head] == 46u8);
        }
        push_capped(&mut text, 46, Ghost(body), Ghost(head));
        let mut k: u32 = 0;
        while k < prec && text.len() < 64
            invariant
                k <= prec,
                prec > 0,
                body == float_body(negative, int_part, digits@, prec),
                head == sign.len() + digits_of(int_part as nat, 10, false).len(),
                body.len() == head + 1 + prec,
                text@ == body.take(if head + 1 + k < 64 { head + 1 + k } else { 64 }),
            decreases prec - k,
        {
            let d: u8 = if (k as usize) < digits.len() {
                digits[k as usize]
            } else {
                0
            };
            proof {
                assert(body[head + 1 + k] == 48u8.wrapping_add(frac_digit(digits@, k as int)));
            }
            push_capped(&mut text, 48u8.wrapping_add(d), Ghost(body), Ghost(head + 1 + k));
            k = k + 1;
        }
        proof {
            if body.len() <= 64 {
                assert(text@ =~= body);
            } else {
                assert(text@ =~= body.take(64));
            }
        }
    }
    proof {
        if prec == 0 {
            assert(body =~= sign + digits_of(int_part as nat, 10, false));
        }
        assert(text@ =~= float_text(negative, int_part, digits@, prec));
    }
    text
}

/// Writes one conversion, its argument at `a`, after `emitted` bytes; gives back the index of
/// the next argument.
fn render(
    out: &mut Vec<u8>,
    stores: &mut Vec<(usize, i32)>,
    c: &Conversion,
    args: &[FormatArg],
    a: usize,
) -> (next: usize)
    requires
        old(out)@.len() <= i32::MAX,
        a < usize::MAX,
    ensures
        final(out)@ == old(out)@ + rendered(*c, args@, a as int),
        final(stores)@ == old(stores)@ + stored(*c, args@, a as int, old(out)@.len() as int),
        next == if takes_arg(c.conv) { a + 1 } else { a as int },
{
    let conv = c.conv;
    let w = word_of(args, a);
    let ghost start = out@;
    if conv == 100 || conv == 105 {
        push_signed(out, c, w as i32);
    } else if conv == 117 {
        let digits = format_uint(w as u64, 10, false);
        push_padded(out, c, &digits);
    } else if conv == 120 || conv == 88 {
        push_hex(out, c, w, conv == 88);
    } else if conv == 111 {
        let digits = format_uint(w as u64, 8, false);
        push_all(out, &digits);
    } else if conv == 112 {
        out.push(48);
        out.push(120);
        let digits = format_uint(w as u64, 16, false);
        push_all(out, &digits);
        proof {
            assert(out@ =~= start + (seq![48u8, 120u8] + digits@));
        }
    } else if conv == 115 {
        push_string(out, c, args, a);
    } else if conv == 99 {
        out.push(w as u8);
        proof {
            assert(out@ =~= start + seq![w as u8]);
        }
    } else if conv == 102 || conv == 70 || conv == 103 || conv == 71 || conv == 101 || conv
        == 69 {
        let text = float_bytes(c, args, a);
        push_padded(out, c, &text);
    } else if conv == 37 {
        out.push(37);
        proof {
            assert(out@ =~= start + seq![37u8]);
        }
    } else if conv == 110 {
        if a < args.len() {
            if let FormatArg::Count = &args[a] {
                stores.push((a, out.len() as i32));
            }
        }
        proof {
            assert(out@ =~= start + Seq::<u8>::empty());
        }
    } else {
        out.push(37);
        out.push(conv);
        proof {
            assert(out@ =~= start + seq![37u8, conv]);
        }
    }
    if conv == 100 || conv == 105 || conv == 117 || conv == 120 || conv == 88 || conv == 111
        || conv == 112 || conv == 115 || conv == 99 || conv == 110 || conv == 102 || conv == 70
        || conv == 103 || conv == 71 || conv == 101 || conv == 69 {
        a + 1
    } else {
        a
    }
}

/// Formats `fmt` with `args`: bytes other than `%` are copied, each conversion specification
/// (`%`, flags `-0+ #`, a width, a `.` and a precision, either of them `*` for the next
/// argument, a length modifier, a conversion character) writes its argument, and the format
/// ends at its NUL or at a `%` that ends it. Gives the bytes written and the stores of `%n`.
pub fn format_to(fmt: &[u8], args: &[FormatArg]) -> (r: Formatted)
    requires
        fmt@.len() < usize::MAX / 4,
        formatted(fmt@, args@).0.len() <= i32::MAX,
    ensures
        r.bytes@ == formatted(fmt@, args@).0,
        r.stores@ == formatted(fmt@, args@).1,
{
    let mut out: Vec<u8> = Vec::new();
    let mut stores: Vec<(usize, i32)> = Vec::new();
    let mut i: usize = 0;
    let mut a: usize = 0;
    proof {
        assert(out@ + formatted(fmt@, args@).0 =~= formatted(fmt@, args@).0);
        assert(stores@ + formatted(fmt@, args@).1 =~= formatted(fmt@, args@).1);
    }
    loop
        invariant
            i <= fmt@.len() + 1,
            a <= 2 * i,
            fmt@.len() < usize::MAX / 4,
            formatted(fmt@, args@).0.len() <= i32::MAX,
            out@ + format_from(fmt@, args@, i as int, a as int, out@.len() as int).0 == formatted(
                fmt@,
                args@,
            ).0,
            stores@ + format_from(fmt@, args@, i as int, a as int, out@.len() as int).1
                == formatted(fmt@, args@).1,
        ensures
            out@ == formatted(fmt@, args@).0,
            stores@ == formatted(fmt@, args@).1,
        decreases fmt@.len() + 1 - i,
    {
        let c = at(fmt, i);
        if c == 0 {
            proof {
                assert(out@ =~= out@ + Seq::<u8>::empty());
                assert(stores@ =~= stores@ + Seq::<(usize, i32)>::empty());
            }
            break;
        }
        if c != 37 {
            let ghost rest = format_from(fmt@, args@, i + 1, a as int, out@.len() + 1int);
            proof {
                assert(out@ + (seq![c] + rest.0) =~= out@.push(c) + rest.0);
            }
            out.push(c);
            i = i + 1;
        } else {
            if at(fmt, i + 1) == 0 {
                proof {
                    assert(out@ =~= out@ + Seq::<u8>::empty());
                    assert(stores@ =~= stores@ + Seq::<(usize, i32)>::empty());
                }
                break;
            }
            proof {
                lemma_conversion_bounds(fmt@, i + 1, args@, a as int);
            }
            let (conv, next, ca) = parse_conversion(fmt, i + 1, args, a);
            let ghost before = out@;
            let ghost before_stores = stores@;
            let na = render(&mut out, &mut stores, &conv, args, ca);
            proof {
                let bytes = rendered(conv, args@, ca as int);
                let st = stored(conv, args@, ca as int, before.len() as int);
                let rest = format_from(fmt@, args@, next as int, na as int, (before.len() + bytes.len()) as int);
                if next < fmt@.len() {
                    assert(before + (bytes + rest.0) =~= out@ + rest.0);
                    assert(before_stores + (st + rest.1) =~= stores@ + rest.1);
                } else {
                    assert(before + bytes =~= out@ + format_from(fmt@, args@, next as int, na as int, out@.len() as int).0);
                    assert(before_stores + st =~= stores@ + format_from(fmt@, args@, next as int, na as int, out@.len() as int).1);
                }
            }
            i = next;
            a = na;
        }
    }
    Formatted { bytes: out, stores }
}

/// What `vsnprintf` leaves in a buffer of `size` bytes: as much of the text as fits before a
/// NUL; nothing when `size` is 0.
pub open spec fn buffer_after(old_buf: Seq<u8>, text: Seq<u8>, size: usize) -> Seq<u8> {
    if size == 0 {
        old_buf
    } else {
        let k = if text.len() < size - 1 { text.len() as int } else { size - 1 };
        text.take(k) + seq![0u8] + old_buf.skip(k + 1)
    }
}

/// Formats into a buffer of `size` bytes; returns the length of the whole text and the stores
/// of `%n`.
pub fn vsnprintf(buf: &mut Vec<u8>, size: usize, fmt: &[u8], args: &[FormatArg]) -> (r: (
    i32,
    Vec<(usize, i32)>,
))
    requires
        fmt@.len() < usize::MAX / 4,
        formatted(fmt@, args@).0.len() <= i32::MAX,
        size > 0 ==> (if formatted(fmt@, args@).0.len() < size - 1 {
            formatted(fmt@, args@).0.len() as int
        } else {
            size - 1
        }) < old(buf)@.len(),
    ensures
        r.0 == formatted(fmt@, args@).0.len(),
        r.1@ == formatted(fmt@, args@).1,
        final(buf)@ == buffer_after(old(buf)@, formatted(fmt@, args@).0, size),
{
    let f = format_to(fmt, args);
    let count = f.bytes.len() as i32;
    if size == 0 {
        return (count, f.stores);
    }
    let max = size - 1;
    let k = if f.bytes.len() < max { f.bytes.len() } else { max };
    let ghost b0 = buf@;
    let mut j: usize = 0;
    while j < k
        invariant
            j <= k,
            k <= f.bytes@.len(),
            k < b0.len(),
            buf@.len() == b0.len(),
            buf@ == f.bytes@.take(j as int) + b0.skip(j as int),
        decreases k - j,
    {
        buf.set(j, f.bytes[j]);
        j = j + 1;
        proof {
            assert(buf@ =~= f.bytes@.take(j as int) + b0.skip(j as int));
        }
    }
    buf.set(k, 0);
    proof {
        assert(buf@ =~= buffer_after(b0, f.bytes@, size));
    }
    (count, f.stores)
}

/// `vsnprintf`.
pub fn snprintf(buf: &mut Vec<u8>, size: usize, fmt: &[u8], args: &[FormatArg]) -> (r: (
    i32,
    Vec<(usize, i32)>,
))
    requires
        fmt@.len() < usize::MAX / 4,
        formatted(fmt@, args@).0.len() <= i32::MAX,
        size > 0 ==> (if formatted(fmt@, args@).0.len() < size - 1 {
            formatted(fmt@, args@).0.len() as int
        } else {
            size - 1
        }) < old(buf)@.len(),
    ensures
        r.0 == formatted(fmt@, args@).0.len(),
        r.1@ == formatted(fmt@, args@).1,
        final(buf)@ == buffer_after(old(buf)@, formatted(fmt@, args@).0, size),
{
    vsnprintf(buf, size, fmt, args)
}

/// `vsnprintf` with no limit: the buffer has room for the whole text and its NUL.
pub fn sprintf(buf: &mut Vec<u8>, fmt: &[u8], args: &[FormatArg]) -> (r: (i32, Vec<(usize, i32)>))
    requires
        fmt@.len() < usize::MAX / 4,
        formatted(fmt@, args@).0.len() <= i32::MAX,
        formatted(fmt@, args@).0.len() < old(buf)@.len(),
    ensures
        r.0 == formatted(fmt@, args@).0.len(),
        r.1@ == formatted(fmt@, args@).1,
        final(buf)@ == buffer_after(old(buf)@, formatted(fmt@, args@).0, usize::MAX),
{
    vsnprintf(buf, usize::MAX, fmt, args)
}

} // verus!
