//! NUL-terminated byte strings of the C library, held in byte slices.
//!
//! A string starts at an index of a slice and ends at the first NUL byte after it.

use vstd::prelude::*;

verus! {

/// The index of the first NUL at or after `i`, or the slice's length if there is none.
pub open spec fn nul_from(s: Seq<u8>, i: int) -> int
    decreases s.len() - i,
{
    if i >= s.len() {
        s.len() as int
    } else if s[i] == 0 {
        i
    } else {
        nul_from(s, i + 1)
    }
}

/// The length of the string at the start of `s`.
pub open spec fn c_len(s: Seq<u8>) -> int {
    nul_from(s, 0)
}

/// The slice holds a NUL after its first string.
pub open spec fn terminated(s: Seq<u8>) -> bool {
    c_len(s) < s.len()
}

/// The string at the start of `s`, without its NUL.
pub open spec fn c_str(s: Seq<u8>) -> Seq<u8> {
    s.take(c_len(s))
}

/// The byte at `i`, where a read past either end gives NUL.
pub open spec fn byte_at(s: Seq<u8>, i: int) -> u8 {
    if 0 <= i < s.len() {
        s[i]
    } else {
        0
    }
}

pub proof fn lemma_nul_from(s: Seq<u8>, i: int)
    requires
        0 <= i <= s.len(),
    ensures
        i <= nul_from(s, i) <= s.len(),
        nul_from(s, i) < s.len() ==> s[nul_from(s, i)] == 0,
        forall|k: int| i <= k < nul_from(s, i) ==> s[k] != 0,
    decreases s.len() - i,
{
    if i < s.len() && s[i] != 0 {
        lemma_nul_from(s, i + 1);
    }
}

/// A position before the end of a string: the string from there ends at the same NUL.
pub proof fn lemma_nul_from_step(s: Seq<u8>, i: int, j: int)
    requires
        0 <= i <= j <= nul_from(s, i),
    ensures
        nul_from(s, j) == nul_from(s, i),
    decreases j - i,
{
    if i < j {
        lemma_nul_from_step(s, i + 1, j);
    }
}

/// Compares bytes from `i` up to `n`: the difference of the first pair that differs, 0 where
/// the first string ends first (equal up to its NUL) or `n` is reached.
pub open spec fn compare_from(a: Seq<u8>, b: Seq<u8>, i: int, n: int) -> int
    decreases n - i,
{
    if i >= n {
        0
    } else if byte_at(a, i) != byte_at(b, i) {
        byte_at(a, i) - byte_at(b, i)
    } else if byte_at(a, i) == 0 {
        0
    } else {
        compare_from(a, b, i + 1, n)
    }
}

/// ASCII capitals mapped to lowercase, other bytes unchanged.
pub open spec fn lower_of(c: u8) -> u8 {
    if 65 <= c <= 90 {
        (c + 32) as u8
    } else {
        c
    }
}

/// `compare_from` on the bytes taken to lowercase.
pub open spec fn compare_lower_from(a: Seq<u8>, b: Seq<u8>, i: int, n: int) -> int
    decreases n - i,
{
    if i >= n {
        0
    } else if lower_of(byte_at(a, i)) != lower_of(byte_at(b, i)) {
        lower_of(byte_at(a, i)) - lower_of(byte_at(b, i))
    } else if lower_of(byte_at(a, i)) == 0 {
        0
    } else {
        compare_lower_from(a, b, i + 1, n)
    }
}

/// Reading `s` up to `n` bytes, or to its NUL, stays inside the slice.
pub open spec fn readable(s: Seq<u8>, n: usize) -> bool {
    terminated(s) || n <= s.len()
}

/// `compare_from` over whole strings: the first string's NUL comes before the end of the range.
pub open spec fn compare_strings(a: Seq<u8>, b: Seq<u8>) -> int {
    compare_from(a, b, 0, a.len() as int)
}

/// `compare_lower_from` over whole strings.
pub open spec fn compare_strings_lower(a: Seq<u8>, b: Seq<u8>) -> int {
    compare_lower_from(a, b, 0, a.len() as int)
}

/// `compare_from` over the first `n` bytes.
pub open spec fn compare_first(a: Seq<u8>, b: Seq<u8>, n: usize) -> int {
    compare_from(a, b, 0, n as int)
}

/// `compare_lower_from` over the first `n` bytes.
pub open spec fn compare_lower_first(a: Seq<u8>, b: Seq<u8>, n: usize) -> int {
    compare_lower_from(a, b, 0, n as int)
}

/// The length of the string at the start of `s`.
pub fn strlen(s: &[u8]) -> (r: usize)
    requires
        terminated(s@),
    ensures
        r == c_len(s@),
{
    proof {
        lemma_nul_from(s@, 0);
    }
    let mut i: usize = 0;
    while s[i] != 0
        invariant
            0 <= i <= nul_from(s@, 0),
            nul_from(s@, 0) < s@.len(),
            nul_from(s@, i as int) == nul_from(s@, 0),
        decreases nul_from(s@, 0) - i,
    {
        proof {
            lemma_nul_from(s@, i + 1);
        }
        i = i + 1;
    }
    i
}

/// The length of the string, but at most `maxlen`.
pub fn strnlen(s: &[u8], maxlen: usize) -> (r: usize)
    requires
        readable(s@, maxlen),
    ensures
        r == (if c_len(s@) < maxlen { c_len(s@) } else { maxlen as int }),
{
    proof {
        lemma_nul_from(s@, 0);
    }
    let mut len: usize = 0;
    while len < maxlen && s[len] != 0
        invariant
            0 <= len <= nul_from(s@, 0),
            len <= maxlen,
            readable(s@, maxlen),
            nul_from(s@, 0) <= s@.len(),
            nul_from(s@, len as int) == nul_from(s@, 0),
        decreases maxlen - len,
    {
        proof {
            lemma_nul_from(s@, len + 1);
        }
        len = len + 1;
    }
    len
}

fn compare_bytes(s1: &[u8], s2: &[u8], n: usize, fold: bool) -> (r: i32)
    requires
        readable(s1@, n),
        readable(s2@, n),
    ensures
        fold ==> r == compare_lower_from(s1@, s2@, 0, n as int),
        !fold ==> r == compare_from(s1@, s2@, 0, n as int),
{
    proof {
        lemma_nul_from(s1@, 0);
        lemma_nul_from(s2@, 0);
    }
    let mut i: usize = 0;
    while i < n
        invariant
            i <= n,
            readable(s1@, n),
            readable(s2@, n),
            i <= nul_from(s1@, 0),
            i <= nul_from(s2@, 0),
            nul_from(s1@, 0) <= s1@.len(),
            nul_from(s2@, 0) <= s2@.len(),
            nul_from(s1@, 0) < s1@.len() ==> s1@[nul_from(s1@, 0)] == 0,
            nul_from(s2@, 0) < s2@.len() ==> s2@[nul_from(s2@, 0)] == 0,
            forall|k: int| 0 <= k < nul_from(s1@, 0) ==> s1@[k] != 0,
            forall|k: int| 0 <= k < nul_from(s2@, 0) ==> s2@[k] != 0,
            fold ==> compare_lower_from(s1@, s2@, 0, n as int) == compare_lower_from(
                s1@,
                s2@,
                i as int,
                n as int,
            ),
            !fold ==> compare_from(s1@, s2@, 0, n as int) == compare_from(
                s1@,
                s2@,
                i as int,
                n as int,
            ),
        decreases n - i,
    {
        let a0 = s1[i];
        let b0 = s2[i];
        let a = if fold { lower(a0) } else { a0 };
        let b = if fold { lower(b0) } else { b0 };
        if a != b {
            return a as i32 - b as i32;
        }
        if a == 0 {
            return 0;
        }
        proof {
            assert(a0 != 0);
            assert(b0 != 0);
        }
        i = i + 1;
    }
    0
}

fn lower(c: u8) -> (r: u8)
    ensures
        r == lower_of(c),
{
    if c >= 65 && c <= 90 {
        c + 32
    } else {
        c
    }
}

/// The byte difference where two strings first differ, 0 where they are equal.
pub fn strcmp(s1: &[u8], s2: &[u8]) -> (r: i32)
    requires
        terminated(s1@),
        terminated(s2@),
    ensures
        r == compare_strings(s1@, s2@),
{
    compare_bytes(s1, s2, s1.len(), false)
}

/// `strcmp` on at most the first `n` bytes.
pub fn strncmp(s1: &[u8], s2: &[u8], n: usize) -> (r: i32)
    requires
        readable(s1@, n),
        readable(s2@, n),
    ensures
        r == compare_first(s1@, s2@, n),
{
    compare_bytes(s1, s2, n, false)
}

/// `strcmp` with ASCII letters compared without regard to case.
pub fn strcasecmp(s1: &[u8], s2: &[u8]) -> (r: i32)
    requires
        terminated(s1@),
        terminated(s2@),
    ensures
        r == compare_strings_lower(s1@, s2@),
{
    compare_bytes(s1, s2, s1.len(), true)
}

/// `strncmp` with ASCII letters compared without regard to case.
pub fn strncasecmp(s1: &[u8], s2: &[u8], n: usize) -> (r: i32)
    requires
        readable(s1@, n),
        readable(s2@, n),
    ensures
        r == compare_lower_first(s1@, s2@, n),
{
    compare_bytes(s1, s2, n, true)
}

/// `src`'s string, NUL included, written over `dest` from `at`.
pub open spec fn copied_at(dest: Seq<u8>, at: int, src: Seq<u8>) -> Seq<u8> {
    dest.take(at) + src.take(c_len(src) + 1) + dest.skip(at + c_len(src) + 1)
}

/// The first `n` bytes of `src`'s string, filled up with NULs to `n`.
pub open spec fn padded(src: Seq<u8>, n: int) -> Seq<u8> {
    Seq::new(n as nat, |k: int| if k < c_len(src) { src[k] } else { 0u8 })
}

/// At most `n` bytes of `src`'s string and a NUL, written over `dest` from `at`.
pub open spec fn appended_at(dest: Seq<u8>, at: int, src: Seq<u8>, n: int) -> Seq<u8> {
    let k = if c_len(src) < n { c_len(src) } else { n };
    dest.take(at) + src.take(k) + seq![0u8] + dest.skip(at + k + 1)
}

fn copy_string(dest: &mut Vec<u8>, at: usize, src: &[u8]) -> (end: usize)
    requires
        terminated(src@),
        at + c_len(src@) < old(dest)@.len(),
    ensures
        final(dest)@ == copied_at(old(dest)@, at as int, src@),
        end == at + c_len(src@),
{
    proof {
        lemma_nul_from(src@, 0);
    }
    let ghost d0 = dest@;
    let dest_size = dest.len();
    let mut i: usize = 0;
    loop
        invariant
            d0 == old(dest)@,
            dest_size == d0.len(),
            0 <= i <= nul_from(src@, 0),
            nul_from(src@, 0) < src@.len(),
            nul_from(src@, i as int) == nul_from(src@, 0),
            at + nul_from(src@, 0) < d0.len(),
            dest@.len() == d0.len(),
            dest@ == d0.take(at as int) + src@.take(i as int) + d0.skip(at + i),
        decreases nul_from(src@, 0) - i,
    {
        let c = src[i];
        dest.set(at + i, c);
        proof {
            assert(dest@ =~= d0.take(at as int) + src@.take(i + 1) + d0.skip(at + i + 1));
        }
        if c == 0 {
            proof {
                assert(i == nul_from(src@, 0));
            }
            return at + i;
        }
        proof {
            lemma_nul_from(src@, i + 1);
        }
        i = i + 1;
    }
}

/// Copies the string of `src`, NUL included, to the start of `dest`.
pub fn strcpy(dest: &mut Vec<u8>, src: &[u8])
    requires
        terminated(src@),
        c_len(src@) < old(dest)@.len(),
    ensures
        final(dest)@ == copied_at(old(dest)@, 0, src@),
{
    copy_string(dest, 0, src);
}

/// `strcpy`, giving back the index in `dest` of the NUL it wrote.
pub fn stpcpy(dest: &mut Vec<u8>, src: &[u8]) -> (end: usize)
    requires
        terminated(src@),
        c_len(src@) < old(dest)@.len(),
    ensures
        final(dest)@ == copied_at(old(dest)@, 0, src@),
        end == c_len(src@),
{
    copy_string(dest, 0, src)
}

/// Copies `n` bytes: the string of `src`, then NULs up to `n`.
pub fn strncpy(dest: &mut Vec<u8>, src: &[u8], n: usize)
    requires
        readable(src@, n),
        n <= old(dest)@.len(),
    ensures
        final(dest)@ == padded(src@, n as int) + old(dest)@.skip(n as int),
{
    proof {
        lemma_nul_from(src@, 0);
    }
    let ghost d0 = dest@;
    let mut i: usize = 0;
    let mut ended = false;
    while i < n
        invariant
            i <= n,
            n <= d0.len(),
            readable(src@, n),
            nul_from(src@, 0) <= src@.len(),
            nul_from(src@, 0) < src@.len() ==> src@[nul_from(src@, 0)] == 0,
            forall|k: int| 0 <= k < nul_from(src@, 0) ==> src@[k] != 0,
            ended <==> nul_from(src@, 0) < i,
            !ended ==> i <= nul_from(src@, 0),
            dest@.len() == d0.len(),
            dest@ == padded(src@, i as int) + d0.skip(i as int),
        decreases n - i,
    {
        let c = if ended { 0u8 } else { src[i] };
        dest.set(i, c);
        if c == 0 {
            ended = true;
        }
        proof {
            assert(dest@ =~= padded(src@, i + 1) + d0.skip(i + 1));
        }
        i = i + 1;
    }
    proof {
        assert(dest@ =~= padded(src@, n as int) + d0.skip(n as int));
    }
}

/// Appends the string of `src`, NUL included, after the string of `dest`.
pub fn strcat(dest: &mut Vec<u8>, src: &[u8])
    requires
        terminated(old(dest)@),
        terminated(src@),
        c_len(old(dest)@) + c_len(src@) < old(dest)@.len(),
    ensures
        final(dest)@ == copied_at(old(dest)@, c_len(old(dest)@), src@),
{
    let dest_len = strlen(dest.as_slice());
    copy_string(dest, dest_len, src);
}

/// Appends at most `n` bytes of the string of `src`, then a NUL, after the string of `dest`.
pub fn strncat(dest: &mut Vec<u8>, src: &[u8], n: usize)
    requires
        terminated(old(dest)@),
        readable(src@, n),
        c_len(old(dest)@) + (if c_len(src@) < n { c_len(src@) } else { n as int }) < old(
            dest,
        )@.len(),
    ensures
        final(dest)@ == appended_at(old(dest)@, c_len(old(dest)@), src@, n as int),
{
    proof {
        lemma_nul_from(src@, 0);
    }
    let dest_len = strlen(dest.as_slice());
    let ghost d0 = dest@;
    let dest_size = dest.len();
    let mut i: usize = 0;
    while i < n && src[i] != 0
        invariant
            dest_size == d0.len(),
            i <= n,
            i <= nul_from(src@, 0),
            readable(src@, n),
            nul_from(src@, 0) <= src@.len(),
            nul_from(src@, i as int) == nul_from(src@, 0),
            dest_len == c_len(d0),
            dest_len + (if c_len(src@) < n { c_len(src@) } else { n as int }) < d0.len(),
            dest@.len() == d0.len(),
            dest@ == d0.take(dest_len as int) + src@.take(i as int) + d0.skip(dest_len + i),
        decreases n - i,
    {
        dest.set(dest_len + i, src[i]);
        proof {
            lemma_nul_from(src@, i + 1);
            assert(dest@ =~= d0.take(dest_len as int) + src@.take(i + 1) + d0.skip(
                dest_len + i + 1,
            ));
        }
        i = i + 1;
    }
    dest.set(dest_len + i, 0);
    proof {
        assert(dest@ =~= appended_at(d0, dest_len as int, src@, n as int));
    }
}

/// A new buffer holding the string of `s` and its NUL.
pub fn strdup(s: &[u8]) -> (r: Vec<u8>)
    requires
        terminated(s@),
    ensures
        r@ == s@.take(c_len(s@) + 1),
{
    let len = strlen(s);
    let size = s.len();
    let mut out: Vec<u8> = Vec::new();
    let mut i: usize = 0;
    while i <= len
        invariant
            i <= len + 1,
            len == c_len(s@),
            len < size,
            size == s@.len(),
            out@ == s@.take(i as int),
        decreases len + 1 - i,
    {
        out.push(s[i]);
        proof {
            assert(out@ =~= s@.take(i + 1));
        }
        i = i + 1;
    }
    out
}

/// `k` is the first index of `b` in `s` up to and including `end`.
pub open spec fn first_index(s: Seq<u8>, b: u8, k: int, end: int) -> bool {
    0 <= k <= end && s[k] == b && forall|j: int| 0 <= j < k ==> s[j] != b
}

/// `k` is the last index of `b` in `s` up to and including `end`.
pub open spec fn last_index(s: Seq<u8>, b: u8, k: int, end: int) -> bool {
    0 <= k <= end && s[k] == b && forall|j: int| k < j <= end ==> s[j] != b
}

/// `b` occurs nowhere in `s` up to and including `end`.
pub open spec fn absent(s: Seq<u8>, b: u8, end: int) -> bool {
    forall|j: int| 0 <= j <= end ==> s[j] != b
}

/// The index of the first occurrence of the low byte of `c` in the string, its NUL included.
pub fn strchr(s: &[u8], c: i32) -> (r: Option<usize>)
    requires
        terminated(s@),
    ensures
        match r {
            Some(k) => first_index(s@, c as u8, k as int, c_len(s@)),
            None => absent(s@, c as u8, c_len(s@)),
        },
{
    proof {
        lemma_nul_from(s@, 0);
    }
    let b = c as u8;
    let mut p: usize = 0;
    loop
        invariant
            0 <= p <= nul_from(s@, 0),
            nul_from(s@, 0) < s@.len(),
            s@[nul_from(s@, 0)] == 0,
            forall|k: int| 0 <= k < nul_from(s@, 0) ==> s@[k] != 0,
            b == c as u8,
            forall|j: int| 0 <= j < p ==> s@[j] != b,
        decreases nul_from(s@, 0) - p,
    {
        if s[p] == b {
            return Some(p);
        }
        if s[p] == 0 {
            return None;
        }
        p = p + 1;
    }
}

/// The index of the last occurrence of the low byte of `c` in the string, its NUL included.
pub fn strrchr(s: &[u8], c: i32) -> (r: Option<usize>)
    requires
        terminated(s@),
    ensures
        match r {
            Some(k) => last_index(s@, c as u8, k as int, c_len(s@)),
            None => absent(s@, c as u8, c_len(s@)),
        },
{
    proof {
        lemma_nul_from(s@, 0);
    }
    let b = c as u8;
    let mut last: Option<usize> = None;
    let mut p: usize = 0;
    loop
        invariant
            0 <= p <= nul_from(s@, 0),
            nul_from(s@, 0) < s@.len(),
            s@[nul_from(s@, 0)] == 0,
            forall|k: int| 0 <= k < nul_from(s@, 0) ==> s@[k] != 0,
            b == c as u8,
            match last {
                Some(k) => last_index(s@, b, k as int, p - 1),
                None => absent(s@, b, p - 1),
            },
        decreases nul_from(s@, 0) - p,
    {
        if s[p] == b {
            last = Some(p);
        }
        if s[p] == 0 {
            return last;
        }
        p = p + 1;
    }
}

/// The index of the first of the first `n` bytes that equals the low byte of `c`.
pub fn memchr(s: &[u8], c: i32, n: usize) -> (r: Option<usize>)
    requires
        n <= s@.len(),
    ensures
        match r {
            Some(k) => first_index(s@, c as u8, k as int, n - 1),
            None => absent(s@, c as u8, n - 1),
        },
{
    let b = c as u8;
    let mut i: usize = 0;
    while i < n
        invariant
            i <= n,
            n <= s@.len(),
            b == c as u8,
            forall|j: int| 0 <= j < i ==> s@[j] != b,
        decreases n - i,
    {
        if s[i] == b {
            return Some(i);
        }
        i = i + 1;
    }
    None
}

/// The index of the last of the first `n` bytes that equals the low byte of `c`.
pub fn memrchr(s: &[u8], c: i32, n: usize) -> (r: Option<usize>)
    requires
        n <= s@.len(),
    ensures
        match r {
            Some(k) => last_index(s@, c as u8, k as int, n - 1),
            None => absent(s@, c as u8, n - 1),
        },
{
    let b = c as u8;
    let mut i: usize = n;
    while i > 0
        invariant
            i <= n,
            n <= s@.len(),
            b == c as u8,
            forall|j: int| i <= j < n ==> s@[j] != b,
        decreases i,
    {
        i = i - 1;
        if s[i] == b {
            return Some(i);
        }
    }
    None
}

/// The needle's string occurs in the haystack's string at `p`.
pub open spec fn occurs_at(hay: Seq<u8>, p: int, needle: Seq<u8>) -> bool {
    &&& 0 <= p
    &&& p + c_len(needle) <= c_len(hay)
    &&& hay.subrange(p, p + c_len(needle)) == c_str(needle)
}

fn occurs_here(hay: &[u8], p: usize, needle: &[u8], nl: usize) -> (r: bool)
    requires
        terminated(hay@),
        terminated(needle@),
        nl == c_len(needle@),
        p < c_len(hay@),
    ensures
        r == occurs_at(hay@, p as int, needle@),
{
    proof {
        lemma_nul_from(hay@, 0);
        lemma_nul_from(needle@, 0);
    }
    let size = hay.len();
    let mut k: usize = 0;
    while k < nl
        invariant
            size == hay@.len(),
            k <= nl,
            nl == nul_from(needle@, 0),
            nl < needle@.len(),
            forall|j: int| 0 <= j < nl ==> needle@[j] != 0,
            p < nul_from(hay@, 0),
            nul_from(hay@, 0) < hay@.len(),
            hay@[nul_from(hay@, 0)] == 0,
            forall|j: int| 0 <= j < nul_from(hay@, 0) ==> hay@[j] != 0,
            p + k <= nul_from(hay@, 0),
            forall|j: int| 0 <= j < k ==> hay@[p + j] == needle@[j],
        decreases nl - k,
    {
        if hay[p + k] != needle[k] {
            proof {
                if occurs_at(hay@, p as int, needle@) {
                    assert(hay@.subrange(p as int, p + nl)[k as int] == c_str(needle@)[k as int]);
                }
            }
            return false;
        }
        k = k + 1;
    }
    proof {
        assert(hay@.subrange(p as int, p + nl) =~= c_str(needle@));
    }
    true
}

/// The index of the first occurrence of the needle's string in the haystack's string; an
/// empty needle is found at 0.
pub fn strstr(hay: &[u8], needle: &[u8]) -> (r: Option<usize>)
    requires
        terminated(hay@),
        terminated(needle@),
    ensures
        c_len(needle@) == 0 ==> r == Some(0usize),
        c_len(needle@) > 0 ==> match r {
            Some(p) => occurs_at(hay@, p as int, needle@) && forall|q: int|
                0 <= q < p ==> !occurs_at(hay@, q, needle@),
            None => forall|q: int| !occurs_at(hay@, q, needle@),
        },
{
    proof {
        lemma_nul_from(hay@, 0);
        lemma_nul_from(needle@, 0);
    }
    if needle[0] == 0 {
        return Some(0);
    }
    let nl = strlen(needle);
    let size = hay.len();
    let mut p: usize = 0;
    while hay[p] != 0
        invariant
            size == hay@.len(),
            nl == c_len(needle@),
            nl > 0,
            terminated(hay@),
            terminated(needle@),
            0 <= p <= nul_from(hay@, 0),
            nul_from(hay@, 0) < hay@.len(),
            nul_from(hay@, p as int) == nul_from(hay@, 0),
            forall|q: int| 0 <= q < p ==> !occurs_at(hay@, q, needle@),
        decreases nul_from(hay@, 0) - p,
    {
        proof {
            lemma_nul_from(hay@, p + 1);
        }
        if occurs_here(hay, p, needle, nl) {
            return Some(p);
        }
        p = p + 1;
    }
    None
}

/// The message for any error number: every number gives the same text.
pub fn strerror(errnum: i32) -> (r: Vec<u8>)
    ensures
        r@ == seq![69u8, 114, 114, 111, 114, 0],
{
    let r: Vec<u8> = vec![69u8, 114, 114, 111, 114, 0];
    proof {
        assert(r@ =~= seq![69u8, 114, 114, 111, 114, 0]);
    }
    r
}

/// `c` is one of the bytes of the delimiter string.
pub open spec fn is_delim(c: u8, delim: Seq<u8>) -> bool {
    exists|k: int| 0 <= k < c_len(delim) && delim[k] == c
}

/// The first index from `i` that holds NUL or a byte that is no delimiter.
pub open spec fn skip_delims(s: Seq<u8>, i: int, delim: Seq<u8>) -> int
    decreases s.len() - i,
{
    if i >= s.len() {
        s.len() as int
    } else if s[i] != 0 && is_delim(s[i], delim) {
        skip_delims(s, i + 1, delim)
    } else {
        i
    }
}

/// The first index from `i` that holds NUL or a delimiter.
pub open spec fn token_end(s: Seq<u8>, i: int, delim: Seq<u8>) -> int
    decreases s.len() - i,
{
    if i >= s.len() {
        s.len() as int
    } else if s[i] != 0 && !is_delim(s[i], delim) {
        token_end(s, i + 1, delim)
    } else {
        i
    }
}

proof fn lemma_skip_delims(s: Seq<u8>, i: int, delim: Seq<u8>)
    requires
        0 <= i <= nul_from(s, i) < s.len(),
    ensures
        i <= skip_delims(s, i, delim) <= nul_from(s, i),
        nul_from(s, skip_delims(s, i, delim)) == nul_from(s, i),
    decreases s.len() - i,
{
    if s[i] != 0 && is_delim(s[i], delim) {
        lemma_nul_from(s, i + 1);
        lemma_skip_delims(s, i + 1, delim);
    }
}

proof fn lemma_scan_bounds(s: Seq<u8>, i: int, delim: Seq<u8>)
    requires
        0 <= i <= s.len(),
    ensures
        i <= skip_delims(s, i, delim),
        i <= token_end(s, i, delim),
    decreases s.len() - i,
{
    if i < s.len() {
        lemma_scan_bounds(s, i + 1, delim);
    }
}

proof fn lemma_token_end(s: Seq<u8>, i: int, delim: Seq<u8>)
    requires
        0 <= i <= nul_from(s, i) < s.len(),
    ensures
        i <= token_end(s, i, delim) <= nul_from(s, i),
    decreases s.len() - i,
{
    if s[i] != 0 && !is_delim(s[i], delim) {
        lemma_nul_from(s, i + 1);
        lemma_token_end(s, i + 1, delim);
    }
}

fn is_delim_byte(c: u8, delim: &[u8]) -> (r: bool)
    requires
        terminated(delim@),
    ensures
        r == is_delim(c, delim@),
{
    proof {
        lemma_nul_from(delim@, 0);
    }
    let mut d: usize = 0;
    while delim[d] != 0
        invariant
            0 <= d <= nul_from(delim@, 0),
            nul_from(delim@, 0) < delim@.len(),
            nul_from(delim@, d as int) == nul_from(delim@, 0),
            delim@[nul_from(delim@, 0)] == 0,
            forall|k: int| 0 <= k < d ==> delim@[k] != c,
        decreases nul_from(delim@, 0) - d,
    {
        if delim[d] == c {
            proof {
                assert(delim@[d as int] == c);
            }
            return true;
        }
        proof {
            lemma_nul_from(delim@, d + 1);
        }
        d = d + 1;
    }
    false
}

/// What `strtok` does, from position `from` of `s`: the start of the next token and the
/// position the following call goes on from.
pub open spec fn tokenized(s: Seq<u8>, from: Option<usize>, delim: Seq<u8>) -> (
    Seq<u8>,
    Option<usize>,
    Option<usize>,
) {
    match from {
        None => (s, None, None),
        Some(p) => {
            let q = skip_delims(s, p as int, delim);
            if s[q] == 0 {
                (s, None, None)
            } else {
                let e = token_end(s, q, delim);
                if s[e] != 0 {
                    (s.update(e, 0), Some(q as usize), Some((e + 1) as usize))
                } else {
                    (s, Some(q as usize), None)
                }
            }
        },
    }
}

proof fn lemma_skipped_are_delims(s: Seq<u8>, i: int, delim: Seq<u8>)
    requires
        0 <= i <= s.len(),
    ensures
        forall|k: int| i <= k < skip_delims(s, i, delim) ==> #[trigger] s[k] != 0 && is_delim(s[k], delim),
        skip_delims(s, i, delim) <= s.len(),
        skip_delims(s, i, delim) < s.len() && s[skip_delims(s, i, delim)] != 0 ==> !is_delim(
            s[skip_delims(s, i, delim)],
            delim,
        ),
    decreases s.len() - i,
{
    if i < s.len() && s[i] != 0 && is_delim(s[i], delim) {
        lemma_skipped_are_delims(s, i + 1, delim);
    }
}

proof fn lemma_token_bytes(s: Seq<u8>, i: int, delim: Seq<u8>)
    requires
        0 <= i <= s.len(),
    ensures
        forall|k: int| i <= k < token_end(s, i, delim) ==> #[trigger] s[k] != 0 && !is_delim(s[k], delim),
        token_end(s, i, delim) <= s.len(),
        token_end(s, i, delim) < s.len() && s[token_end(s, i, delim)] != 0 ==> is_delim(
            s[token_end(s, i, delim)],
            delim,
        ),
    decreases s.len() - i,
{
    if i < s.len() && s[i] != 0 && !is_delim(s[i], delim) {
        lemma_token_bytes(s, i + 1, delim);
    }
}

/// `strtok` from position `p`: the delimiters there are passed over; the token found starts
/// at a byte that is neither NUL nor a delimiter, runs over such bytes only, and is ended by a
/// NUL, written over the delimiter that follows it (the call after goes on just past it) or
/// the string's own NUL (no call after finds more). No token is found exactly when only
/// delimiters are left before the string's NUL. Nothing else in the buffer changes.
pub proof fn law_strtok_token(s: Seq<u8>, p: usize, delim: Seq<u8>)
    requires
        p <= nul_from(s, p as int) < s.len(),
        s.len() <= usize::MAX,
    ensures
        ({
            let (t, start, next) = tokenized(s, Some(p), delim);
            let n = nul_from(s, p as int);
            &&& t.len() == s.len()
            &&& start is None <==> forall|k: int| p <= k < n ==> #[trigger] is_delim(s[k], delim)
            &&& start is None ==> t == s && next is None
            &&& start matches Some(q) ==> {
                &&& p <= q < n
                &&& forall|k: int| p <= k < q ==> #[trigger] is_delim(s[k], delim)
                &&& exists|e: int| {
                    &&& q < e <= n
                    &&& forall|k: int| q <= k < e ==> #[trigger] s[k] != 0 && !is_delim(s[k], delim)
                    &&& #[trigger] t[e] == 0
                    &&& (e < n ==> is_delim(s[e], delim) && next == Some((e + 1) as usize))
                    &&& (e == n ==> next is None)
                    &&& forall|k: int| 0 <= k < s.len() && k != e ==> t[k] == s[k]
                }
            }
        }),
{
    let n = nul_from(s, p as int);
    lemma_nul_from(s, p as int);
    lemma_skip_delims(s, p as int, delim);
    lemma_skipped_are_delims(s, p as int, delim);
    let q = skip_delims(s, p as int, delim);
    let (t, start, next) = tokenized(s, Some(p), delim);
    if s[q] == 0 {
        assert(q == n) by {
            if q < n {
                assert(s[q] != 0);
            }
        }
        assert forall|k: int| p <= k < n implies #[trigger] is_delim(s[k], delim) by {
            assert(s[k] != 0 && is_delim(s[k], delim));
        }
    } else {
        lemma_nul_from(s, q);
        lemma_token_end(s, q, delim);
        lemma_token_bytes(s, q, delim);
        let e = token_end(s, q, delim);
        assert(q < n) by {
            if q == n {
                assert(s[q] == 0);
            }
        }
        assert(!is_delim(s[q], delim));
        assert(e > q);
        assert(!(forall|k: int| p <= k < n ==> #[trigger] is_delim(s[k], delim))) by {
            assert(p <= q < n);
        }
        if s[e] != 0 {
            assert(e < n) by {
                if e == n {
                    assert(s[e] == 0);
                }
            }
            assert(is_delim(s[e], delim));
            assert(t[e] == 0);
        } else {
            assert(e == n) by {
                if e < n {
                    assert(s[e] != 0);
                }
            }
        }
        assert(t[e] == 0);
    }
}

/// Splits a string into tokens between delimiter bytes. From `from` (the start of the string
/// on a first call, the position returned by the previous call after that) it skips
/// delimiters, ends the token found with a NUL written over the delimiter that follows it,
/// and returns the token's start and the position to go on from.
pub fn strtok(buf: &mut Vec<u8>, from: Option<usize>, delim: &[u8]) -> (r: (
    Option<usize>,
    Option<usize>,
))
    requires
        terminated(delim@),
        from matches Some(p) ==> p <= nul_from(old(buf)@, p as int) < old(buf)@.len(),
    ensures
        (final(buf)@, r.0, r.1) == tokenized(old(buf)@, from, delim@),
{
    let p = match from {
        None => {
            return (None, None);
        },
        Some(p) => p,
    };
    proof {
        lemma_skip_delims(buf@, p as int, delim@);
        lemma_nul_from(buf@, p as int);
    }
    let size = buf.len();
    let mut q = p;
    while buf[q] != 0 && is_delim_byte(buf[q], delim)
        invariant
            size == buf@.len(),
            terminated(delim@),
            p <= q <= skip_delims(buf@, p as int, delim@),
            nul_from(buf@, p as int) < buf@.len(),
            skip_delims(buf@, q as int, delim@) == skip_delims(buf@, p as int, delim@),
            skip_delims(buf@, p as int, delim@) <= nul_from(buf@, p as int),
        decreases skip_delims(buf@, p as int, delim@) - q,
    {
        proof {
            lemma_scan_bounds(buf@, q + 1, delim@);
        }
        q = q + 1;
    }
    if buf[q] == 0 {
        return (None, None);
    }
    proof {
        lemma_token_end(buf@, q as int, delim@);
        lemma_nul_from_step(buf@, p as int, q as int);
    }
    let mut e = q;
    while buf[e] != 0 && !is_delim_byte(buf[e], delim)
        invariant
            size == buf@.len(),
            terminated(delim@),
            q <= e <= token_end(buf@, q as int, delim@),
            nul_from(buf@, q as int) < buf@.len(),
            token_end(buf@, e as int, delim@) == token_end(buf@, q as int, delim@),
            token_end(buf@, q as int, delim@) <= nul_from(buf@, q as int),
        decreases token_end(buf@, q as int, delim@) - e,
    {
        proof {
            lemma_scan_bounds(buf@, e + 1, delim@);
        }
        e = e + 1;
    }
    if buf[e] != 0 {
        buf.set(e, 0);
        (Some(q), Some(e + 1))
    } else {
        (Some(q), None)
    }
}

proof fn lemma_equal_prefix_compares_equal(a: Seq<u8>, b: Seq<u8>, i: int, n: int, len: int)
    requires
        0 <= i <= n < len,
        n < a.len(),
        n < b.len(),
        a[n] == 0,
        b[n] == 0,
        forall|k: int| i <= k < n ==> a[k] == b[k] && a[k] != 0,
    ensures
        compare_from(a, b, i, len) == 0,
    decreases n - i,
{
    if i < n {
        lemma_equal_prefix_compares_equal(a, b, i + 1, n, len);
    }
}

/// A string copied with `strcpy` compares equal to the string it was copied from.
pub proof fn law_copy_compares_equal(dest: Seq<u8>, src: Seq<u8>)
    requires
        terminated(src),
        c_len(src) < dest.len(),
    ensures
        compare_strings(copied_at(dest, 0, src), src) == 0,
{
    lemma_nul_from(src, 0);
    let n = c_len(src);
    let d = copied_at(dest, 0, src);
    assert(d.len() == dest.len());
    assert forall|k: int| 0 <= k < n implies d[k] == src[k] && d[k] != 0 by {
        assert(d[k] == src.take(n + 1)[k]);
    }
    assert(d[n] == src[n]);
    lemma_equal_prefix_compares_equal(d, src, 0, n, d.len() as int);
}

proof fn lemma_compare_strings(a: Seq<u8>, b: Seq<u8>, i: int)
    requires
        terminated(a),
        terminated(b),
        0 <= i <= c_len(a),
        i <= c_len(b),
        forall|j: int| 0 <= j < i ==> a[j] == b[j],
    ensures
        compare_from(a, b, i, a.len() as int) == -compare_from(b, a, i, b.len() as int),
        compare_from(a, b, i, a.len() as int) == 0 <==> c_str(a) == c_str(b),
        forall|k: int| i <= k < a.len() && k < b.len() && a[k] != b[k] && (forall|j: int| i <= j < k ==> a[j] == b[j] && a[j] != 0)
            ==> compare_from(a, b, i, a.len() as int) == a[k] - b[k],
    decreases a.len() - i,
{
    lemma_nul_from(a, 0);
    lemma_nul_from(b, 0);
    let la = c_len(a);
    let lb = c_len(b);
    assert(i < a.len() && i < b.len());
    if a[i] != b[i] {
        assert(c_str(a) != c_str(b)) by {
            if c_str(a) == c_str(b) {
                assert(c_str(a).len() == la);
                assert(c_str(b).len() == lb);
                if i < la {
                    assert(c_str(a)[i] == a[i]);
                    assert(i < lb);
                    assert(c_str(b)[i] == b[i]);
                } else {
                    assert(c_str(a).len() == i);
                    assert(b[i] != 0);
                }
            }
        }
        assert forall|k: int| i <= k < a.len() && k < b.len() && a[k] != b[k] && (forall|j: int| i <= j < k ==> a[j] == b[j] && a[j] != 0)
            implies compare_from(a, b, i, a.len() as int) == a[k] - b[k] by {
            if k > i {
                assert(a[i] == b[i]);
            }
        }
    } else if a[i] == 0 {
        assert(i == la && i == lb);
        assert(c_str(a) =~= c_str(b));
    } else {
        assert(i < la && i < lb);
        lemma_compare_strings(a, b, i + 1);
        assert forall|k: int| i <= k < a.len() && k < b.len() && a[k] != b[k] && (forall|j: int| i <= j < k ==> a[j] == b[j] && a[j] != 0)
            implies compare_from(a, b, i, a.len() as int) == a[k] - b[k] by {
            assert(k != i);
        }
    }
}

/// `strcmp` answers 0 exactly for equal strings; otherwise the difference of the bytes where
/// the strings first differ, so that swapping the strings negates the answer.
pub proof fn law_strcmp_orders(a: Seq<u8>, b: Seq<u8>)
    requires
        terminated(a),
        terminated(b),
    ensures
        compare_strings(a, b) == 0 <==> c_str(a) == c_str(b),
        compare_strings(a, b) == -compare_strings(b, a),
        forall|k: int| 0 <= k < a.len() && k < b.len() && a[k] != b[k] && (forall|j: int| 0 <= j < k ==> a[j] == b[j] && a[j] != 0)
            ==> compare_strings(a, b) == a[k] - b[k],
{
    lemma_nul_from(a, 0);
    lemma_nul_from(b, 0);
    lemma_compare_strings(a, b, 0);
}

} // verus!
