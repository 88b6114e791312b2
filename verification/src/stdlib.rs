//! Numbers read from C strings, absolute values, the pseudo-random generator and the
//! table of exit handlers of the C library.

use vstd::prelude::*;
use crate::cstr::{byte_at, lemma_nul_from, lemma_nul_from_step, nul_from, terminated};
use crate::ctype::is_space_byte;
use crate::printf::{digit_value_of, digits_of, digits_value, law_digits_represent};

verus! {

/// The first index from `i` whose byte is not white space.
pub open spec fn skip_space(s: Seq<u8>, i: int) -> int
    decreases s.len() - i,
{
    if i >= s.len() {
        s.len() as int
    } else if is_space_byte(s[i]) {
        skip_space(s, i + 1)
    } else {
        i
    }
}

/// The value of a digit or letter as a digit: `0..=9`, then `a`/`A` as 10 up to `z`/`Z` as
/// 35; -1 for any other byte.
pub open spec fn digit_value(c: u8) -> int {
    if 48 <= c <= 57 {
        c - 48
    } else if 97 <= c <= 122 {
        c - 97 + 10
    } else if 65 <= c <= 90 {
        c - 65 + 10
    } else {
        -1
    }
}

/// `c` is a digit of the given base.
pub open spec fn is_digit_in(c: u8, base: u32) -> bool {
    0 <= digit_value(c) < base
}

/// The first index from `i` whose byte is not a digit of `base`.
pub open spec fn digits_end(s: Seq<u8>, i: int, base: u32) -> int
    decreases s.len() - i,
{
    if i >= s.len() {
        s.len() as int
    } else if is_digit_in(s[i], base) {
        digits_end(s, i + 1, base)
    } else {
        i
    }
}

/// The digits in `start..end` read in `base`, each step in wrapping 32-bit arithmetic.
pub open spec fn accumulated(s: Seq<u8>, start: int, end: int, base: u32) -> i32
    decreases end - start,
{
    if end <= start {
        0
    } else {
        accumulated(s, start, end - 1, base).wrapping_mul(base as i32).wrapping_add(
            digit_value(s[end - 1]) as i32,
        )
    }
}

/// The index after an optional sign at `j`.
pub open spec fn after_sign(s: Seq<u8>, j: int) -> int {
    if byte_at(s, j) == 45 || byte_at(s, j) == 43 {
        j + 1
    } else {
        j
    }
}

/// `0x` or `0X` at `k`.
pub open spec fn hex_prefix_at(s: Seq<u8>, k: int) -> bool {
    byte_at(s, k) == 48 && (byte_at(s, k + 1) == 120 || byte_at(s, k + 1) == 88)
}

/// The base the digits are read in and where they start, given the base asked for: 0 picks
/// 16 after `0x`, 8 after a leading `0` and 10 otherwise; 16 skips a `0x`.
pub open spec fn radix_and_start(s: Seq<u8>, k: int, base: i32) -> (u32, int) {
    let asked = base as u32;
    if asked == 0 {
        if hex_prefix_at(s, k) {
            (16, k + 2)
        } else if byte_at(s, k) == 48 {
            (8, k + 1)
        } else {
            (10, k)
        }
    } else if asked == 16 && hex_prefix_at(s, k) {
        (16, k + 2)
    } else {
        (asked, k)
    }
}

/// What `strtol` gives for `s` and `base`: the value, negated in wrapping arithmetic after a
/// `-`, and the index where the digits end.
pub open spec fn strtol_result(s: Seq<u8>, base: i32) -> (i32, int) {
    let j = skip_space(s, 0);
    let k = after_sign(s, j);
    let (radix, start) = radix_and_start(s, k, base);
    let end = digits_end(s, start, radix);
    let v = accumulated(s, start, end, radix);
    (if byte_at(s, j) == 45 { 0i32.wrapping_sub(v) } else { v }, end)
}

proof fn lemma_skip_space_agree(s: Seq<u8>, t: Seq<u8>, i: int, m: int)
    requires
        0 <= i,
        s.len() == t.len(),
        forall|x: int| 0 <= x < m && x < s.len() ==> s[x] == t[x],
        skip_space(s, i) < m,
    ensures
        skip_space(t, i) == skip_space(s, i),
    decreases s.len() - i,
{
    if i < s.len() {
        assert(s[i] == t[i]) by {
            lemma_scan_ge(s, i, 10);
        }
        if is_space_byte(s[i]) {
            lemma_skip_space_agree(s, t, i + 1, m);
        }
    }
}

proof fn lemma_digits_agree(s: Seq<u8>, t: Seq<u8>, i: int, base: u32)
    requires
        s.len() == t.len(),
        forall|x: int| i <= x < s.len() ==> s[x] == t[x],
    ensures
        digits_end(t, i, base) == digits_end(s, i, base),
        forall|e: int| i <= e <= s.len() ==> accumulated(t, i, e, base) == accumulated(s, i, e, base),
    decreases s.len() - i,
{
    if i < s.len() {
        lemma_digits_agree(s, t, i + 1, base);
    }
    assert forall|e: int| i <= e <= s.len() implies accumulated(t, i, e, base) == accumulated(s, i, e, base) by {
        lemma_accumulated_agree(s, t, i, e, base);
    }
}

proof fn lemma_accumulated_agree(s: Seq<u8>, t: Seq<u8>, i: int, e: int, base: u32)
    requires
        s.len() == t.len(),
        i <= e <= s.len(),
        forall|x: int| i <= x < s.len() ==> s[x] == t[x],
    ensures
        accumulated(t, i, e, base) == accumulated(s, i, e, base),
    decreases e - i,
{
    if e > i {
        lemma_accumulated_agree(s, t, i, e - 1, base);
    }
}

/// The prefixes of a string of digits never read as more than the whole string.
proof fn lemma_prefix_values(d: Seq<u8>, base: nat, e: int)
    requires
        base >= 2,
        0 <= e <= d.len(),
        forall|i: int| 0 <= i < d.len() ==> 0 <= #[trigger] digit_value_of(d[i]) < base,
    ensures
        0 <= digits_value(d.take(e), base) <= digits_value(d, base),
    decreases d.len() - e,
{
    lemma_prefix_nonneg(d, base, e);
    if e < d.len() {
        lemma_prefix_values(d, base, e + 1);
        let x = digits_value(d.take(e), base);
        let c = digit_value_of(d[e]);
        assert(d.take(e + 1).drop_last() =~= d.take(e));
        assert(d.take(e + 1).last() == d[e]);
        assert(digits_value(d.take(e + 1), base) == x * base + c);
        assert(x <= x * base + c) by (nonlinear_arith)
            requires
                x >= 0,
                base >= 2,
                c >= 0,
        ;
    } else {
        assert(d.take(e) =~= d);
    }
}

proof fn lemma_prefix_nonneg(d: Seq<u8>, base: nat, e: int)
    requires
        base >= 2,
        0 <= e <= d.len(),
        forall|i: int| 0 <= i < d.len() ==> 0 <= #[trigger] digit_value_of(d[i]) < base,
    ensures
        0 <= digits_value(d.take(e), base),
    decreases e,
{
    if e > 0 {
        lemma_prefix_nonneg(d, base, e - 1);
        let x = digits_value(d.take(e - 1), base);
        assert(d.take(e).drop_last() =~= d.take(e - 1));
        assert(d.take(e).last() == d[e - 1]);
        assert(x * base >= 0) by (nonlinear_arith)
            requires
                x >= 0,
                base >= 2,
        ;
    }
}

/// Reading the digits of `d`, stored at the start of `s`, accumulates their value while it
/// fits in 32 bits.
proof fn lemma_accumulated_digits(s: Seq<u8>, d: Seq<u8>, base: u32, e: int)
    requires
        2 <= base <= 16,
        0 <= e <= d.len() < s.len(),
        forall|i: int| 0 <= i < d.len() ==> s[i] == d[i],
        forall|i: int| 0 <= i < d.len() ==> 0 <= #[trigger] digit_value_of(d[i]) < base,
        digits_value(d, base as nat) <= i32::MAX,
    ensures
        accumulated(s, 0, e, base) == digits_value(d.take(e), base as nat),
    decreases e,
{
    if e > 0 {
        lemma_accumulated_digits(s, d, base, e - 1);
        lemma_prefix_values(d, base as nat, e);
        lemma_prefix_values(d, base as nat, e - 1);
        let x = digits_value(d.take(e - 1), base as nat);
        let c = digit_value_of(d[e - 1]);
        assert(d.take(e).drop_last() =~= d.take(e - 1));
        assert(d.take(e).last() == d[e - 1]);
        assert(digits_value(d.take(e), base as nat) == x * base + c);
        assert(digit_value(s[e - 1]) == c);
        let xb = x * base;
        assert(0 <= xb <= i32::MAX) by (nonlinear_arith)
            requires
                x >= 0,
                base >= 2,
                c >= 0,
                xb == x * base,
                x * base + c <= i32::MAX,
        ;
        let acc = accumulated(s, 0, e - 1, base);
        assert(acc == x);
        assert((base as i32) == base);
        assert(acc * (base as i32) == xb);
        vstd::arithmetic::div_mod::lemma_small_mod(xb as nat, 0x1_0000_0000);
        assert(acc.wrapping_mul(base as i32) == xb);
        assert((c as i32) == c);
    }
}

/// `strtol` reads back what the library prints: the digits of a number that fits in an `int`,
/// written in base 8, 10 or 16 in either case and ended by a NUL, read in that base give the
/// number, and all of them are read.
pub proof fn law_strtol_reads_printed(v: nat, base: u32, upper: bool)
    requires
        base == 8 || base == 10 || base == 16,
        v <= i32::MAX,
    ensures
        strtol_result(digits_of(v, base as nat, upper).push(0u8), base as i32) == (v as i32,
            digits_of(v, base as nat, upper).len() as int),
{
    let d = digits_of(v, base as nat, upper);
    let s = d.push(0u8);
    law_digits_represent(v, base as nat, upper);
    assert forall|i: int| 0 <= i < d.len() implies s[i] == d[i] && is_digit_in(#[trigger] s[i], base) by {
        assert(digit_value(d[i]) == digit_value_of(d[i]));
    }
    assert(skip_space(s, 0) == 0) by {
        assert(!is_space_byte(s[0]));
    }
    assert(after_sign(s, 0) == 0);
    assert(radix_and_start(s, 0, base as i32) == (base, 0int)) by {
        if base == 16 && hex_prefix_at(s, 0) {
            assert(d[0] == 48);
            if v == 0 {
                assert(s[1] == 0);
            }
        }
    }
    assert(digits_end(s, 0, base) == d.len()) by {
        lemma_digits_run(s, d.len() as int, base, 0);
    }
    lemma_accumulated_digits(s, d, base, d.len() as int);
    assert(d.take(d.len() as int) =~= d);
}

proof fn lemma_digits_run(s: Seq<u8>, n: int, base: u32, i: int)
    requires
        0 <= i <= n < s.len(),
        forall|k: int| 0 <= k < n ==> is_digit_in(#[trigger] s[k], base),
        !is_digit_in(s[n], base),
    ensures
        digits_end(s, i, base) == n,
    decreases n - i,
{
    if i < n {
        lemma_digits_run(s, n, base, i + 1);
    }
}

/// A hexadecimal prefix may be written `0X` as well as `0x`: in base 0 or 16, `strtol` reads a
/// string with `0X` after the white space and sign exactly as the same string with `0x`, value
/// and end alike; and in base 0 such a prefix reads the digits as hexadecimal, as base 16 does.
pub proof fn law_hex_prefix_either_case(s: Seq<u8>, base: i32)
    requires
        base == 0 || base == 16,
        byte_at(s, after_sign(s, skip_space(s, 0))) == 48,
        byte_at(s, after_sign(s, skip_space(s, 0)) + 1) == 88,
    ensures
        strtol_result(s.update(after_sign(s, skip_space(s, 0)) + 1, 120), base) == strtol_result(s, base),
        strtol_result(s, 0) == strtol_result(s, 16),
{
    let j = skip_space(s, 0);
    let k = after_sign(s, j);
    let t = s.update(k + 1, 120);
    lemma_scan_ge(s, 0, 10);
    assert(0 <= j);
    assert(k + 1 < s.len());
    lemma_skip_space_agree(s, t, 0, k + 1);
    assert(byte_at(t, j) == byte_at(s, j));
    assert(after_sign(t, j) == k);
    assert(hex_prefix_at(t, k) && hex_prefix_at(s, k));
    lemma_digits_agree(s, t, k + 2, 16);
    lemma_scan_ge(s, k + 2, 16);
    assert(radix_and_start(t, k, base) == (16u32, k + 2));
    assert(radix_and_start(s, k, base) == (16u32, k + 2));
    let e = digits_end(s, k + 2, 16);
    lemma_digits_end_bound(s, k + 2, 16);
    assert(digits_end(t, k + 2, 16) == e);
    assert(accumulated(t, k + 2, e, 16) == accumulated(s, k + 2, e, 16));
    assert(skip_space(t, 0) == j);
}

/// Base 0 guesses the base from the digits' prefix: `0x` or `0X` reads hexadecimal as base 16
/// does, another leading `0` reads octal as base 8 does, and anything else reads decimal as
/// base 10 does.
pub proof fn law_base_zero_guesses(s: Seq<u8>)
    ensures
        ({
            let k = after_sign(s, skip_space(s, 0));
            &&& byte_at(s, k) == 48 && (byte_at(s, k + 1) == 120 || byte_at(s, k + 1) == 88) ==> strtol_result(s, 0)
                == strtol_result(s, 16)
            &&& byte_at(s, k) == 48 && !(byte_at(s, k + 1) == 120 || byte_at(s, k + 1) == 88) ==> strtol_result(s, 0)
                == strtol_result(s, 8)
            &&& byte_at(s, k) != 48 ==> strtol_result(s, 0) == strtol_result(s, 10)
        }),
{
    let j = skip_space(s, 0);
    let k = after_sign(s, j);
    lemma_scan_ge(s, 0, 10);
    if byte_at(s, k) == 48 && !(byte_at(s, k + 1) == 120 || byte_at(s, k + 1) == 88) {
        // base 0 starts after the `0`; base 8 reads the `0` as a digit, which adds nothing
        assert(k < s.len());
        assert(is_digit_in(s[k], 8));
        assert(digits_end(s, k, 8) == digits_end(s, k + 1, 8));
        lemma_scan_ge(s, k + 1, 8);
        lemma_digits_end_bound(s, k + 1, 8);
        lemma_accumulated_leading_zero(s, k, digits_end(s, k + 1, 8), 8);
    }
}

/// A leading `0` digit adds nothing to the value read.
proof fn lemma_accumulated_leading_zero(s: Seq<u8>, k: int, e: int, base: u32)
    requires
        0 <= k < s.len(),
        s[k] == 48,
        k + 1 <= e <= s.len(),
    ensures
        accumulated(s, k, e, base) == accumulated(s, k + 1, e, base),
    decreases e - k,
{
    if e > k + 1 {
        lemma_accumulated_leading_zero(s, k, e - 1, base);
    } else {
        assert(accumulated(s, k, k, base) == 0i32);
        assert(0i32.wrapping_mul(base as i32) == 0i32);
        assert(0i32.wrapping_add(0i32) == 0i32);
    }
}

/// A `-` before the digits negates, in wrapping arithmetic, what the same digits after a `+`
/// give; both end at the same place.
pub proof fn law_minus_negates(t: Seq<u8>, base: i32)
    ensures
        strtol_result(seq![45u8] + t, base).0 == 0i32.wrapping_sub(strtol_result(seq![43u8] + t, base).0),
        strtol_result(seq![45u8] + t, base).1 == strtol_result(seq![43u8] + t, base).1,
{
    let m = seq![45u8] + t;
    let p = seq![43u8] + t;
    assert(m[0] == 45u8 && p[0] == 43u8);
    assert(!is_space_byte(45u8) && !is_space_byte(43u8));
    assert(skip_space(m, 0) == 0 && skip_space(p, 0) == 0);
    assert(after_sign(m, 0) == 1 && after_sign(p, 0) == 1);
    assert forall|x: int| 1 <= x < m.len() implies m[x] == p[x] by {
        assert(m[x] == t[x - 1] && p[x] == t[x - 1]);
    }
    assert(byte_at(m, 1) == byte_at(p, 1) && byte_at(m, 2) == byte_at(p, 2) && byte_at(m, 3) == byte_at(p, 3));
    assert(radix_and_start(m, 1, base) == radix_and_start(p, 1, base));
    let (radix, start) = radix_and_start(p, 1, base);
    lemma_digits_agree(p, m, start, radix);
    lemma_scan_ge(p, start, radix);
    lemma_digits_end_bound(p, start, radix);
    let e = digits_end(p, start, radix);
    if start <= e <= p.len() {
        assert(accumulated(m, start, e, radix) == accumulated(p, start, e, radix));
    } else {
        assert(e == start);
    }
}

proof fn lemma_digits_end_bound(s: Seq<u8>, i: int, base: u32)
    requires
        0 <= i,
    ensures
        digits_end(s, i, base) <= s.len() || digits_end(s, i, base) == i,
    decreases s.len() - i,
{
    if i < s.len() {
        lemma_digits_end_bound(s, i + 1, base);
    }
}

proof fn lemma_skip_space(s: Seq<u8>, i: int)
    requires
        0 <= i <= nul_from(s, i) < s.len(),
    ensures
        i <= skip_space(s, i) <= nul_from(s, i),
        nul_from(s, skip_space(s, i)) == nul_from(s, i),
    decreases s.len() - i,
{
    if is_space_byte(s[i]) {
        lemma_nul_from(s, i + 1);
        lemma_skip_space(s, i + 1);
    }
}

proof fn lemma_digits_end(s: Seq<u8>, i: int, base: u32)
    requires
        0 <= i <= nul_from(s, i) < s.len(),
    ensures
        i <= digits_end(s, i, base) <= nul_from(s, i),
    decreases s.len() - i,
{
    if is_digit_in(s[i], base) {
        lemma_nul_from(s, i + 1);
        lemma_digits_end(s, i + 1, base);
    }
}

proof fn lemma_scan_ge(s: Seq<u8>, i: int, base: u32)
    requires
        0 <= i <= s.len(),
    ensures
        i <= skip_space(s, i),
        i <= digits_end(s, i, base),
    decreases s.len() - i,
{
    if i < s.len() {
        lemma_scan_ge(s, i + 1, base);
    }
}

fn digit_of(c: u8) -> (r: i32)
    ensures
        r == digit_value(c),
{
    if c >= 48 && c <= 57 {
        (c - 48) as i32
    } else if c >= 97 && c <= 122 {
        (c - 97 + 10) as i32
    } else if c >= 65 && c <= 90 {
        (c - 65 + 10) as i32
    } else {
        -1
    }
}

fn is_space(c: u8) -> (r: bool)
    ensures
        r == is_space_byte(c),
{
    c == 32 || c == 9 || c == 10 || c == 13 || c == 0x0b || c == 0x0c
}

/// Reads an integer from the string at the start of `s`: white space, a sign, then digits of
/// `base` (0 guesses the base from a `0x` or `0` prefix, 16 skips a `0x`). Returns the value,
/// computed in wrapping 32-bit arithmetic, and the index where the digits end.
pub fn strtol(s: &[u8], base: i32) -> (r: (i32, usize))
    requires
        terminated(s@),
    ensures
        r.0 == strtol_result(s@, base).0,
        r.1 == strtol_result(s@, base).1,
{
    proof {
        lemma_nul_from(s@, 0);
        lemma_skip_space(s@, 0);
    }
    let mut i: usize = 0;
    while is_space(s[i])
        invariant
            i <= skip_space(s@, 0),
            skip_space(s@, i as int) == skip_space(s@, 0),
            skip_space(s@, 0) <= nul_from(s@, 0) < s@.len(),
        decreases skip_space(s@, 0) - i,
    {
        proof {
            lemma_scan_ge(s@, i + 1, 10);
        }
        i = i + 1;
    }
    let ghost j = i as int;
    proof {
        lemma_nul_from(s@, 0);
    }
    let mut neg = false;
    if s[i] == 45 {
        neg = true;
        i = i + 1;
    } else if s[i] == 43 {
        i = i + 1;
    }
    let ghost k = i as int;
    assert(k == after_sign(s@, j));
    assert(k <= nul_from(s@, 0));
    let mut radix = #[verifier::truncate] (base as u32);
    if radix == 0 {
        if s[i] == 48 {
            if s[i + 1] == 120 || s[i + 1] == 88 {
                radix = 16;
                i = i + 2;
            } else {
                radix = 8;
                i = i + 1;
            }
        } else {
            radix = 10;
        }
    } else if radix == 16 {
        if s[i] == 48 && (s[i + 1] == 120 || s[i + 1] == 88) {
            i = i + 2;
        }
    }
    assert(radix == radix_and_start(s@, k, base).0);
    assert(i == radix_and_start(s@, k, base).1);
    let ghost start = i as int;
    proof {
        lemma_nul_from_step(s@, 0, start);
        lemma_digits_end(s@, start, radix);
    }
    let mut result: i32 = 0;
    loop
        invariant
            start <= i <= digits_end(s@, start, radix),
            digits_end(s@, i as int, radix) == digits_end(s@, start, radix),
            digits_end(s@, start, radix) <= nul_from(s@, 0) < s@.len(),
            result == accumulated(s@, start, i as int, radix),
        ensures
            i == digits_end(s@, start, radix),
            result == accumulated(s@, start, i as int, radix),
        decreases digits_end(s@, start, radix) - i,
    {
        let d = digit_of(s[i]);
        if d < 0 || d as u32 >= radix {
            break;
        }
        result = result.wrapping_mul(#[verifier::truncate] (radix as i32)).wrapping_add(d);
        proof {
            lemma_scan_ge(s@, i + 1, radix);
        }
        i = i + 1;
    }
    let value = if neg { 0i32.wrapping_sub(result) } else { result };
    (value, i)
}

/// `strtol` in base 10, value only.
pub fn atoi(s: &[u8]) -> (r: i32)
    requires
        terminated(s@),
    ensures
        r == strtol_result(s@, 10).0,
{
    strtol(s, 10).0
}

/// `atoi`: a `long` has 32 bits here.
pub fn atol(s: &[u8]) -> (r: i32)
    requires
        terminated(s@),
    ensures
        r == strtol_result(s@, 10).0,
{
    atoi(s)
}

/// `strtol`, its value taken as unsigned.
pub fn strtoul(s: &[u8], base: i32) -> (r: (u32, usize))
    requires
        terminated(s@),
    ensures
        r.0 == strtol_result(s@, base).0 as u32,
        r.1 == strtol_result(s@, base).1,
{
    let (v, end) = strtol(s, base);
    (#[verifier::truncate] (v as u32), end)
}

/// The absolute value; the most negative `int` has none.
pub fn abs(x: i32) -> (r: i32)
    requires
        x != i32::MIN,
    ensures
        r == (if x < 0 { -x } else { x as int }),
{
    if x < 0 {
        -x
    } else {
        x
    }
}

/// `abs` on a `long`, which has 32 bits here.
pub fn labs(x: i32) -> (r: i32)
    requires
        x != i32::MIN,
    ensures
        r == (if x < 0 { -x } else { x as int }),
{
    abs(x)
}

/// One step of the linear congruential generator.
pub open spec fn next_seed(seed: u32) -> u32 {
    seed.wrapping_mul(1103515245).wrapping_add(12345)
}

/// The number `rand` draws from a seed: bits 16 to 30.
pub open spec fn drawn(seed: u32) -> i32 {
    ((seed >> 16u32) & 0x7fffu32) as i32
}

/// The state of `rand`, which `srand` sets.
pub struct RandomState {
    seed: u32,
}

impl RandomState {
    pub closed spec fn seed(&self) -> u32 {
        self.seed
    }

    /// The state before any call of `srand`: seed 1.
    pub fn new() -> (r: Self)
        ensures
            r.seed() == 1,
    {
        RandomState { seed: 1 }
    }

    pub fn srand(&mut self, seed: u32)
        ensures
            final(self).seed() == seed,
    {
        self.seed = seed;
    }

    /// Advances the seed and draws a number in `0..=0x7fff` from the new seed.
    pub fn rand(&mut self) -> (r: i32)
        ensures
            final(self).seed() == next_seed(old(self).seed()),
            r == drawn(final(self).seed()),
            0 <= r <= 0x7fff,
    {
        self.seed = self.seed.wrapping_mul(1103515245).wrapping_add(12345);
        let s = self.seed;
        let bits = (s >> 16u32) & 0x7fffu32;
        assert(((s >> 16u32) & 0x7fffu32) <= 0x7fffu32) by (bit_vector);
        bits as i32
    }
}

/// The number of exit handlers the table holds.
pub const MAX_ATEXIT: usize = 32;

/// The functions registered with `atexit`, by their entry addresses, in the order of
/// registration.
pub struct ExitHandlers {
    funcs: Vec<u32>,
}

impl View for ExitHandlers {
    type V = Seq<u32>;

    closed spec fn view(&self) -> Seq<u32> {
        self.funcs@
    }
}

impl ExitHandlers {
    pub fn new() -> (r: Self)
        ensures
            r@ == Seq::<u32>::empty(),
    {
        ExitHandlers { funcs: Vec::new() }
    }

    /// Registers a function: 0, or -1 with the table unchanged when it is full.
    pub fn atexit(&mut self, func: u32) -> (r: i32)
        ensures
            old(self)@.len() >= MAX_ATEXIT ==> r == -1 && final(self)@ == old(self)@,
            old(self)@.len() < MAX_ATEXIT ==> r == 0 && final(self)@ == old(self)@.push(func),
    {
        if self.funcs.len() >= MAX_ATEXIT {
            return -1;
        }
        self.funcs.push(func);
        0
    }

    /// The functions `exit` calls, last registered first; the table is left empty.
    pub fn exit_order(&mut self) -> (r: Vec<u32>)
        ensures
            r@ == old(self)@.reverse(),
            final(self)@ == Seq::<u32>::empty(),
    {
        let mut out: Vec<u32> = Vec::new();
        let ghost all = self.funcs@;
        while self.funcs.len() > 0
            invariant
                out@ + self.funcs@.reverse() == all.reverse(),
            decreases self.funcs@.len(),
        {
            let f = self.funcs.pop().unwrap();
            proof {
                assert(self.funcs@.push(f).reverse() =~= seq![f] + self.funcs@.reverse());
                assert(out@.push(f) + self.funcs@.reverse() =~= out@ + (seq![f] + self.funcs@.reverse()));
            }
            out.push(f);
        }
        proof {
            assert(self.funcs@.reverse() =~= Seq::<u32>::empty());
            assert(out@ =~= out@ + self.funcs@.reverse());
        }
        out
    }
}

} // verus!
