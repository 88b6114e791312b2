//! The reading engine of the C library's `sscanf`: `%d`, `%i` and `%s` conversions, white
//! space and literal bytes, over a NUL-terminated input.

use vstd::prelude::*;
use crate::cstr::{byte_at, lemma_nul_from, lemma_nul_from_step, nul_from, terminated};
use crate::ctype::is_space_byte;
use crate::stdlib::{accumulated, atoi, digits_end, law_minus_negates, law_strtol_reads_printed, skip_space, strtol_result};
use crate::printf::{digits_of, law_digits_represent};
use vstd::slice::slice_subrange;

verus! {

/// A value a conversion stores: an integer, or a word (stored with a NUL after it).
pub enum Scanned {
    Int(i32),
    Text(Vec<u8>),
}

/// A stored value as plain values: an integer, or the bytes of a word.
pub open spec fn scanned_view(v: Scanned) -> (bool, i32, Seq<u8>) {
    match v {
        Scanned::Int(n) => (true, n, Seq::empty()),
        Scanned::Text(t) => (false, 0, t@),
    }
}

/// The first index from `i` whose byte is not a decimal digit.
pub open spec fn decimal_end(s: Seq<u8>, i: int) -> int
    decreases s.len() - i,
{
    if 0 <= i < s.len() && 48 <= s[i] <= 57 {
        decimal_end(s, i + 1)
    } else {
        i
    }
}

/// The first index from `i` that holds NUL or white space.
pub open spec fn word_end(s: Seq<u8>, i: int) -> int
    decreases s.len() - i,
{
    if 0 <= i < s.len() && s[i] != 0 && !is_space_byte(s[i]) {
        word_end(s, i + 1)
    } else {
        i
    }
}

/// The index after an optional sign at `t`.
pub open spec fn after_sign_at(s: Seq<u8>, t: int) -> int {
    if byte_at(s, t) == 45 || byte_at(s, t) == 43 {
        t + 1
    } else {
        t
    }
}

/// The values the format from `fi` reads from the input from `si`.
pub open spec fn scan_from(fmt: Seq<u8>, s: Seq<u8>, fi: int, si: int) -> Seq<(bool, i32, Seq<u8>)>
    decreases fmt.len() - fi,
{
    let fc = byte_at(fmt, fi);
    if fi < 0 || fi >= fmt.len() || fc == 0 {
        Seq::empty()
    } else if fc == 32 || fc == 9 || fc == 10 {
        scan_from(fmt, s, fi + 1, skip_space(s, si))
    } else if fc != 37 {
        if byte_at(s, si) != fc {
            Seq::empty()
        } else {
            scan_from(fmt, s, fi + 1, si + 1)
        }
    } else {
        let conv = byte_at(fmt, fi + 1);
        if conv == 100 || conv == 105 {
            let start = skip_space(s, si);
            let end = decimal_end(s, after_sign_at(s, start));
            if end == start {
                Seq::empty()
            } else {
                seq![(true, strtol_result(s.subrange(start, s.len() as int), 10).0, Seq::empty())]
                    + scan_from(fmt, s, fi + 2, end)
            }
        } else if conv == 115 {
            let start = skip_space(s, si);
            let end = word_end(s, start);
            seq![(false, 0i32, s.subrange(start, end))] + scan_from(fmt, s, fi + 2, end)
        } else {
            Seq::empty()
        }
    }
}

proof fn lemma_digits_shift(t: Seq<u8>, i: int, base: u32)
    requires
        0 <= i <= t.len(),
    ensures
        digits_end(seq![43u8] + t, i + 1, base) == digits_end(t, i, base) + 1,
        forall|e: int| i <= e <= t.len() ==> accumulated(seq![43u8] + t, i + 1, e + 1, base) == accumulated(t, i, e, base),
    decreases t.len() - i,
{
    let p = seq![43u8] + t;
    if i < t.len() {
        assert(p[i + 1] == t[i]);
        lemma_digits_shift(t, i + 1, base);
    }
    assert forall|e: int| i <= e <= t.len() implies accumulated(seq![43u8] + t, i + 1, e + 1, base) == accumulated(t, i, e, base) by {
        lemma_accumulated_shift(t, i, e, base);
    }
}

proof fn lemma_accumulated_shift(t: Seq<u8>, i: int, e: int, base: u32)
    requires
        0 <= i <= e <= t.len(),
    ensures
        accumulated(seq![43u8] + t, i + 1, e + 1, base) == accumulated(t, i, e, base),
    decreases e - i,
{
    if e > i {
        assert((seq![43u8] + t)[e] == t[e - 1]);
        lemma_accumulated_shift(t, i, e - 1, base);
    }
}

proof fn lemma_decimal_end_pos(s: Seq<u8>, i: int)
    requires
        0 <= i < s.len(),
        48 <= s[i] <= 57,
    ensures
        decimal_end(s, i) > i,
{
    lemma_decimal_end_ge(s, i + 1);
}



/// `%d` reads back what `%d` prints: the decimal digits of a number that fits in an `int`,
/// ended by a NUL, scan as exactly that one number.
pub proof fn law_scan_reads_printed(v: nat)
    requires
        v <= i32::MAX,
    ensures
        scan_from(seq![37u8, 100u8, 0u8], digits_of(v, 10, false).push(0u8), 0, 0) == seq![(
            true,
            v as i32,
            Seq::<u8>::empty(),
        )],
{
    let fmt = seq![37u8, 100u8, 0u8];
    let d = digits_of(v, 10, false);
    let s = d.push(0u8);
    law_digits_represent(v, 10, false);
    law_strtol_reads_printed(v, 10, false);
    assert(skip_space(s, 0) == 0) by {
        assert(s[0] == d[0]);
        assert(!is_space_byte(s[0]));
    }
    assert(after_sign_at(s, 0) == 0) by {
        assert(s[0] == d[0]);
    }
    assert(decimal_end(s, 0) == d.len()) by {
        assert forall|k: int| 0 <= k < d.len() implies 48 <= #[trigger] s[k] <= 57 by {
            assert(s[k] == d[k]);
            assert(0 <= crate::printf::digit_value_of(d[k]) < 10);
        }
        lemma_decimal_run(s, d.len() as int, 0);
    }
    assert(s.subrange(0, s.len() as int) =~= s);
    assert(scan_from(fmt, s, 2, d.len() as int) == Seq::<(bool, i32, Seq<u8>)>::empty());
    assert(scan_from(fmt, s, 0, 0) =~= seq![(true, v as i32, Seq::<u8>::empty())] + Seq::<(bool, i32, Seq<u8>)>::empty());
}

proof fn lemma_decimal_run(s: Seq<u8>, n: int, i: int)
    requires
        0 <= i <= n < s.len(),
        forall|k: int| 0 <= k < n ==> 48 <= #[trigger] s[k] <= 57,
        !(48 <= s[n] <= 57),
    ensures
        decimal_end(s, i) == n,
    decreases n - i,
{
    if i < n {
        lemma_decimal_run(s, n, i + 1);
    }
}

/// `%d` and `%i` take an optional `+` before the digits as well as a `-`: scanning `+` followed
/// by a number gives one value, the same as scanning the number alone.
pub proof fn law_plus_sign_scans(t: Seq<u8>, conv: u8)
    requires
        conv == 100 || conv == 105,
        t.len() > 0,
        48 <= t[0] <= 57,
    ensures
        scan_from(seq![37u8, conv], seq![43u8] + t, 0, 0) == scan_from(seq![37u8, conv], t, 0, 0),
        scan_from(seq![37u8, conv], t, 0, 0).len() == 1,
{
    let fmt = seq![37u8, conv];
    let p = seq![43u8] + t;
    assert(p[0] == 43u8);
    assert(!is_space_byte(43u8));
    assert(skip_space(p, 0) == 0);
    assert(skip_space(t, 0) == 0);
    assert(after_sign_at(p, 0) == 1);
    assert(after_sign_at(t, 0) == 0);
    lemma_decimal_end_pos(t, 0);
    assert(p[1] == t[0]);
    lemma_decimal_end_pos(p, 1);
    assert(p.subrange(0, p.len() as int) =~= p);
    assert(t.subrange(0, t.len() as int) =~= t);
    lemma_digits_shift(t, 0, 10);
    lemma_digits_end_le(t, 0, 10);
    assert(scan_from(fmt, p, 2, decimal_end(p, 1)) == Seq::<(bool, i32, Seq<u8>)>::empty());
    assert(scan_from(fmt, t, 2, decimal_end(t, 0)) == Seq::<(bool, i32, Seq<u8>)>::empty());
    assert(strtol_result(p, 10).0 == strtol_result(t, 10).0);
}

/// `%d` and `%i` read a `-` before the digits as negation: scanning `-` and a number gives the
/// negation, in wrapping arithmetic, of what scanning `+` and the same number gives.
pub proof fn law_minus_sign_scans(t: Seq<u8>, conv: u8)
    requires
        conv == 100 || conv == 105,
        t.len() > 0,
        48 <= t[0] <= 57,
    ensures
        scan_from(seq![37u8, conv], seq![45u8] + t, 0, 0).len() == 1,
        scan_from(seq![37u8, conv], seq![45u8] + t, 0, 0)[0].1 == 0i32.wrapping_sub(
            scan_from(seq![37u8, conv], seq![43u8] + t, 0, 0)[0].1,
        ),
{
    let fmt = seq![37u8, conv];
    let m = seq![45u8] + t;
    let p = seq![43u8] + t;
    assert(!is_space_byte(45u8) && !is_space_byte(43u8));
    assert(m[0] == 45u8 && p[0] == 43u8);
    assert(skip_space(m, 0) == 0 && skip_space(p, 0) == 0);
    assert(after_sign_at(m, 0) == 1 && after_sign_at(p, 0) == 1);
    assert(m[1] == t[0] && p[1] == t[0]);
    lemma_decimal_end_pos(m, 1);
    lemma_decimal_end_pos(p, 1);
    assert(m.subrange(0, m.len() as int) =~= m);
    assert(p.subrange(0, p.len() as int) =~= p);
    assert(scan_from(fmt, m, 2, decimal_end(m, 1)) == Seq::<(bool, i32, Seq<u8>)>::empty());
    assert(scan_from(fmt, p, 2, decimal_end(p, 1)) == Seq::<(bool, i32, Seq<u8>)>::empty());
    law_minus_negates(t, 10);
}

/// `%s` reads a word: after the white space in front of it, the bytes up to the next white
/// space or NUL, none of which is white space or NUL.
pub proof fn law_word_scan(s: Seq<u8>)
    ensures
        ({
            let r = scan_from(seq![37u8, 115u8], s, 0, 0);
            let start = skip_space(s, 0);
            let w = r[0].2;
            &&& r.len() == 1
            &&& !r[0].0
            &&& forall|i: int| 0 <= i < start ==> is_space_byte(#[trigger] s[i])
            &&& start + w.len() <= s.len()
            &&& s.subrange(start, start + w.len()) == w
            &&& forall|i: int| 0 <= i < w.len() ==> #[trigger] w[i] != 0 && !is_space_byte(w[i])
            &&& byte_at(s, start + w.len()) == 0 || is_space_byte(byte_at(s, start + w.len()))
        }),
{
    let start = skip_space(s, 0);
    lemma_skip_space_prefix(s, 0);
    lemma_skip_space_ge(s, 0);
    lemma_word_scan_end(s, start);
    let end = word_end(s, start);
    let fmt = seq![37u8, 115u8];
    assert(scan_from(fmt, s, 2, end) == Seq::<(bool, i32, Seq<u8>)>::empty());
    let r = scan_from(fmt, s, 0, 0);
    assert(r =~= seq![(false, 0i32, s.subrange(start, end))]);
    let w = s.subrange(start, end);
    assert forall|i: int| 0 <= i < w.len() implies #[trigger] w[i] != 0 && !is_space_byte(w[i]) by {
        assert(w[i] == s[start + i]);
    }
}

proof fn lemma_skip_space_prefix(s: Seq<u8>, i: int)
    requires
        0 <= i,
    ensures
        forall|x: int| i <= x < skip_space(s, i) ==> is_space_byte(#[trigger] s[x]),
        skip_space(s, i) <= s.len() || skip_space(s, i) == i,
    decreases s.len() - i,
{
    if i < s.len() && is_space_byte(s[i]) {
        lemma_skip_space_prefix(s, i + 1);
    }
}

proof fn lemma_word_scan_end(s: Seq<u8>, i: int)
    requires
        0 <= i,
    ensures
        i <= word_end(s, i),
        word_end(s, i) <= s.len() || word_end(s, i) == i,
        forall|x: int| i <= x < word_end(s, i) ==> #[trigger] s[x] != 0 && !is_space_byte(s[x]),
        byte_at(s, word_end(s, i)) == 0 || is_space_byte(byte_at(s, word_end(s, i))),
    decreases s.len() - i,
{
    if 0 <= i < s.len() && s[i] != 0 && !is_space_byte(s[i]) {
        lemma_word_scan_end(s, i + 1);
    }
}

proof fn lemma_digits_end_le(t: Seq<u8>, i: int, base: u32)
    requires
        0 <= i <= t.len(),
    ensures
        i <= digits_end(t, i, base) <= t.len(),
    decreases t.len() - i,
{
    if i < t.len() {
        lemma_digits_end_le(t, i + 1, base);
    }
}

proof fn lemma_skip_space_bound(s: Seq<u8>, i: int)
    requires
        0 <= i <= nul_from(s, i) < s.len(),
    ensures
        i <= skip_space(s, i) <= nul_from(s, i),
        nul_from(s, skip_space(s, i)) == nul_from(s, i),
    decreases s.len() - i,
{
    if is_space_byte(s[i]) {
        lemma_nul_from(s, i + 1);
        lemma_skip_space_bound(s, i + 1);
    }
}

proof fn lemma_decimal_end(s: Seq<u8>, i: int)
    requires
        0 <= i <= nul_from(s, i) < s.len(),
    ensures
        i <= decimal_end(s, i) <= nul_from(s, i),
    decreases s.len() - i,
{
    if 48 <= s[i] <= 57 {
        lemma_nul_from(s, i + 1);
        lemma_decimal_end(s, i + 1);
    }
}

proof fn lemma_word_end(s: Seq<u8>, i: int)
    requires
        0 <= i <= nul_from(s, i) < s.len(),
    ensures
        i <= word_end(s, i) <= nul_from(s, i),
    decreases s.len() - i,
{
    if s[i] != 0 && !is_space_byte(s[i]) {
        lemma_nul_from(s, i + 1);
        lemma_word_end(s, i + 1);
    }
}

fn at(s: &[u8], i: usize) -> (r: u8)
    ensures
        r == byte_at(s@, i as int),
{
    if i < s.len() {
        s[i]
    } else {
        0
    }
}

fn is_space(c: u8) -> (r: bool)
    ensures
        r == is_space_byte(c),
{
    c == 32 || c == 9 || c == 10 || c == 13 || c == 0x0b || c == 0x0c
}

fn skip_spaces(s: &[u8], si: usize) -> (r: usize)
    requires
        si <= nul_from(s@, si as int) < s@.len(),
    ensures
        r == skip_space(s@, si as int),
        nul_from(s@, r as int) == nul_from(s@, si as int),
        si <= r <= nul_from(s@, si as int),
{
    proof {
        lemma_skip_space_bound(s@, si as int);
    }
    let mut k = si;
    while is_space(s[k])
        invariant
            si <= k <= skip_space(s@, si as int),
            skip_space(s@, k as int) == skip_space(s@, si as int),
            skip_space(s@, si as int) <= nul_from(s@, si as int) < s@.len(),
            nul_from(s@, skip_space(s@, si as int)) == nul_from(s@, si as int),
        decreases skip_space(s@, si as int) - k,
    {
        proof {
            if k + 1 > skip_space(s@, si as int) {
                assert(skip_space(s@, k as int) == skip_space(s@, k + 1));
                lemma_skip_space_ge(s@, k + 1);
            }
        }
        k = k + 1;
    }
    k
}

proof fn lemma_skip_space_ge(s: Seq<u8>, i: int)
    requires
        0 <= i <= s.len(),
    ensures
        i <= skip_space(s, i),
    decreases s.len() - i,
{
    if i < s.len() {
        lemma_skip_space_ge(s, i + 1);
    }
}

/// The string at `start` of `s` ends where the string at the start of `s.subrange(start, ..)`
/// ends.
proof fn lemma_nul_from_suffix(s: Seq<u8>, start: int, i: int)
    requires
        0 <= start <= i <= s.len(),
    ensures
        nul_from(s.subrange(start, s.len() as int), i - start) == nul_from(s, i) - start,
    decreases s.len() - i,
{
    if i < s.len() && s[i] != 0 {
        lemma_nul_from_suffix(s, start, i + 1);
    }
}

/// Reads values from the string `s` as the format says: white space in the format skips
/// white space, other bytes must match, `%d` and `%i` read an integer as `atoi` does, `%s`
/// reads a word. Stops at the end of the format, at a mismatch, at a `%d` with no digits or
/// at another conversion. Returns the count of values read and the values in order.
pub fn vsscanf(s: &[u8], fmt: &[u8]) -> (r: (i32, Vec<Scanned>))
    requires
        terminated(s@),
        fmt@.len() <= i32::MAX,
    ensures
        r.1@.map_values(|v: Scanned| scanned_view(v)) == scan_from(fmt@, s@, 0, 0),
        r.0 == r.1@.len(),
{
    proof {
        lemma_nul_from(s@, 0);
    }
    let size = s.len();
    let mut out: Vec<Scanned> = Vec::new();
    let mut fi: usize = 0;
    let mut si: usize = 0;
    let ghost all = scan_from(fmt@, s@, 0, 0);
    proof {
        assert(out@.map_values(|v: Scanned| scanned_view(v)) + all =~= all);
    }
    loop
        invariant
            size == s@.len(),
            fi <= fmt@.len(),
            fmt@.len() <= i32::MAX,
            out@.len() <= fi,
            si <= nul_from(s@, 0) < s@.len(),
            nul_from(s@, si as int) == nul_from(s@, 0),
            all == scan_from(fmt@, s@, 0, 0),
            out@.map_values(|v: Scanned| scanned_view(v)) + scan_from(
                fmt@,
                s@,
                fi as int,
                si as int,
            ) == all,
        ensures
            out@.map_values(|v: Scanned| scanned_view(v)) == all,
            out@.len() <= fmt@.len(),
        decreases fmt@.len() - fi,
    {
        let ghost seen = out@.map_values(|v: Scanned| scanned_view(v));
        let fc = at(fmt, fi);
        if fc == 0 {
            proof {
                assert(seen + Seq::empty() =~= seen);
            }
            break;
        }
        if fc == 32 || fc == 9 || fc == 10 {
            fi = fi + 1;
            si = skip_spaces(s, si);
            continue;
        }
        if fc != 37 {
            if at(s, si) != fc {
                proof {
                    assert(seen + Seq::empty() =~= seen);
                }
                break;
            }
            proof {
                lemma_nul_from(s@, si + 1);
            }
            fi = fi + 1;
            si = si + 1;
            continue;
        }
        let conv = at(fmt, fi + 1);
        if conv == 100 || conv == 105 {
            let start = skip_spaces(s, si);
            let mut k = start;
            if s[k] == 45 || s[k] == 43 {
                k = k + 1;
            }
            proof {
                lemma_nul_from(s@, 0);
                lemma_nul_from_step(s@, 0, k as int);
                lemma_decimal_end(s@, k as int);
            }
            while s[k] >= 48 && s[k] <= 57
                invariant
                    k <= decimal_end(s@, after_sign_at(s@, start as int)),
                    decimal_end(s@, k as int) == decimal_end(s@, after_sign_at(s@, start as int)),
                    decimal_end(s@, after_sign_at(s@, start as int)) <= nul_from(s@, 0) < s@.len(),
                decreases decimal_end(s@, after_sign_at(s@, start as int)) - k,
            {
                proof {
                    lemma_decimal_end_ge(s@, k + 1);
                }
                k = k + 1;
            }
            if k == start {
                proof {
                    assert(seen + Seq::empty() =~= seen);
                }
                break;
            }
            proof {
                lemma_nul_from_suffix(s@, start as int, start as int);
            }
            let rest = slice_subrange(s, start, s.len());
            let value = atoi(rest);
            let ghost item = (true, value, Seq::<u8>::empty());
            proof {
                assert(out@.push(Scanned::Int(value)).map_values(|v: Scanned| scanned_view(v))
                    =~= seen.push(item));
                assert(seen.push(item) + scan_from(fmt@, s@, fi + 2, k as int) =~= seen + (seq![
                    item,
                ] + scan_from(fmt@, s@, fi + 2, k as int)));
                lemma_nul_from_step(s@, 0, k as int);
            }
            out.push(Scanned::Int(value));
            fi = fi + 2;
            si = k;
        } else if conv == 115 {
            let start = skip_spaces(s, si);
            proof {
                lemma_nul_from_step(s@, 0, start as int);
                lemma_word_end(s@, start as int);
            }
            let mut word: Vec<u8> = Vec::new();
            let mut k = start;
            while s[k] != 0 && !is_space(s[k])
                invariant
                    start <= k <= word_end(s@, start as int),
                    word_end(s@, k as int) == word_end(s@, start as int),
                    word_end(s@, start as int) <= nul_from(s@, 0) < s@.len(),
                    word@ == s@.subrange(start as int, k as int),
                decreases word_end(s@, start as int) - k,
            {
                word.push(s[k]);
                proof {
                    assert(word@ =~= s@.subrange(start as int, k + 1));
                    lemma_word_end_ge(s@, k + 1);
                }
                k = k + 1;
            }
            let ghost item = (false, 0i32, word@);
            proof {
                assert(out@.push(Scanned::Text(word)).map_values(|v: Scanned| scanned_view(v))
                    =~= seen.push(item));
                assert(seen.push(item) + scan_from(fmt@, s@, fi + 2, k as int) =~= seen + (seq![
                    item,
                ] + scan_from(fmt@, s@, fi + 2, k as int)));
                lemma_nul_from_step(s@, 0, k as int);
            }
            out.push(Scanned::Text(word));
            fi = fi + 2;
            si = k;
        } else {
            proof {
                assert(seen + Seq::empty() =~= seen);
            }
            break;
        }
    }
    (out.len() as i32, out)
}

proof fn lemma_decimal_end_ge(s: Seq<u8>, i: int)
    requires
        0 <= i,
    ensures
        i <= decimal_end(s, i),
        i <= word_end(s, i),
    decreases s.len() - i,
{
    if 0 <= i < s.len() {
        lemma_decimal_end_ge(s, i + 1);
    }
}

proof fn lemma_word_end_ge(s: Seq<u8>, i: int)
    requires
        0 <= i,
    ensures
        i <= word_end(s, i),
{
    lemma_decimal_end_ge(s, i);
}

/// `vsscanf`.
pub fn sscanf(s: &[u8], fmt: &[u8]) -> (r: (i32, Vec<Scanned>))
    requires
        terminated(s@),
        fmt@.len() <= i32::MAX,
    ensures
        r.1@.map_values(|v: Scanned| scanned_view(v)) == scan_from(fmt@, s@, 0, 0),
        r.0 == r.1@.len(),
{
    vsscanf(s, fmt)
}

} // verus!
