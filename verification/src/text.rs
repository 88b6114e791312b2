//! Character-level text helpers: whitespace, ASCII case, trimming and
//! substring search over sequences of characters.
use vstd::prelude::*;
use vstd::string::StringSliceAdditionalSpecFns;

verus! {

/// Unicode `White_Space`, the set of characters that `char::is_whitespace`
/// accepts
pub open spec fn is_white_space(c: char) -> bool {
    let v = c as u32;
    ||| 0x09 <= v <= 0x0d
    ||| v == 0x20
    ||| v == 0x85
    ||| v == 0xa0
    ||| v == 0x1680
    ||| 0x2000 <= v <= 0x200a
    ||| v == 0x2028
    ||| v == 0x2029
    ||| v == 0x202f
    ||| v == 0x205f
    ||| v == 0x3000
}

pub fn char_is_whitespace(c: char) -> (r: bool)
    ensures
        r == is_white_space(c),
{
    let v = c as u32;
    (0x09 <= v && v <= 0x0d) || v == 0x20 || v == 0x85 || v == 0xa0 || v == 0x1680 || (0x2000 <= v && v <= 0x200a)
        || v == 0x2028 || v == 0x2029 || v == 0x202f || v == 0x205f || v == 0x3000
}

/// The ASCII lower-case form of a character: `A`-`Z` become `a`-`z`, every
/// other character is unchanged
pub open spec fn ascii_lower(c: char) -> char {
    if 'A' <= c <= 'Z' {
        ((c as u32) + 32) as char
    } else {
        c
    }
}

pub fn char_to_ascii_lowercase(c: char) -> (r: char)
    ensures
        r == ascii_lower(c),
{
    if 'A' <= c && c <= 'Z' {
        ((c as u8) + 32) as char
    } else {
        c
    }
}

pub open spec fn lower_seq(s: Seq<char>) -> Seq<char> {
    s.map_values(|c: char| ascii_lower(c))
}

/// The characters of a string slice, in order
pub fn chars_of(s: &str) -> (r: Vec<char>)
    ensures
        r@ == s@,
{
    broadcast use vstd::string::group_string_axioms;
    let mut out: Vec<char> = Vec::new();
    for c in it: s.chars()
        invariant
            it.seq() == s@,
            out@ == s@.take(it.index() as int),
    {
        assert(s@.take(it.index() as int + 1) =~= out@.push(c));
        out.push(c);
    }
    assert(s@.take(s@.len() as int) =~= s@);
    out
}

/// Append a character to a string: `String::push`
#[verifier::external_body]
pub(crate) fn string_push(s: &mut String, c: char)
    ensures
        final(s)@ == old(s)@.push(c),
{
    s.push(c)
}

/// Remove the last character of a string, if any: `String::pop`
#[verifier::external_body]
pub(crate) fn string_pop(s: &mut String) -> (r: Option<char>)
    ensures
        old(s)@.len() == 0 ==> r is None && final(s)@ == old(s)@,
        old(s)@.len() > 0 ==> r == Some(old(s)@.last()) && final(s)@ == old(s)@.drop_last(),
{
    s.pop()
}

/// Whether two strings hold the same characters
pub fn str_equal(a: &str, b: &str) -> (r: bool)
    ensures
        r == (a@ == b@),
{
    let x = chars_of(a);
    let y = chars_of(b);
    if x.len() != y.len() {
        return false;
    }
    let mut i: usize = 0;
    while i < x.len()
        invariant
            x@ == a@,
            y@ == b@,
            x@.len() == y@.len(),
            i <= x@.len(),
            forall|k: int| 0 <= k < i ==> x@[k] == y@[k],
        decreases x@.len() - i,
    {
        if x[i] != y[i] {
            return false;
        }
        i = i + 1;
    }
    assert(x@ =~= y@);
    true
}

/// A string holding the given characters
pub fn string_from_chars(v: &[char]) -> (r: String)
    ensures
        r@ == v@,
{
    let mut s = String::new();
    let mut i: usize = 0;
    while i < v.len()
        invariant
            i <= v@.len(),
            s@ == v@.take(i as int),
        decreases v@.len() - i,
    {
        string_push(&mut s, v[i]);
        assert(v@.take(i + 1) =~= v@.take(i as int).push(v@[i as int]));
        i = i + 1;
    }
    assert(v@.take(v@.len() as int) =~= v@);
    s
}

/// The ASCII lower-case form of every character
pub fn to_ascii_lowercase(v: &[char]) -> (r: Vec<char>)
    ensures
        r@ == lower_seq(v@),
{
    let mut out: Vec<char> = Vec::new();
    let mut i: usize = 0;
    while i < v.len()
        invariant
            i <= v@.len(),
            out@ == lower_seq(v@.take(i as int)),
        decreases v@.len() - i,
    {
        out.push(char_to_ascii_lowercase(v[i]));
        assert(lower_seq(v@.take(i + 1)) =~= lower_seq(v@.take(i as int)).push(ascii_lower(v@[i as int])));
        i = i + 1;
    }
    assert(v@.take(v@.len() as int) =~= v@);
    out
}

/// Equal up to ASCII case
pub fn eq_ignore_ascii_case(a: &[char], b: &[char]) -> (r: bool)
    ensures
        r == (lower_seq(a@) == lower_seq(b@)),
{
    if a.len() != b.len() {
        proof {
            assert(lower_seq(a@).len() != lower_seq(b@).len());
        }
        return false;
    }
    let mut i: usize = 0;
    while i < a.len()
        invariant
            a@.len() == b@.len(),
            i <= a@.len(),
            forall|k: int| 0 <= k < i ==> ascii_lower(a@[k]) == ascii_lower(b@[k]),
        decreases a@.len() - i,
    {
        if char_to_ascii_lowercase(a[i]) != char_to_ascii_lowercase(b[i]) {
            proof {
                assert(lower_seq(a@)[i as int] != lower_seq(b@)[i as int]);
            }
            return false;
        }
        i = i + 1;
    }
    assert(lower_seq(a@) =~= lower_seq(b@));
    true
}

/// The number of trailing whitespace characters
pub open spec fn trailing_space(s: Seq<char>) -> int
    decreases s.len(),
{
    if s.len() > 0 && is_white_space(s.last()) {
        1 + trailing_space(s.drop_last())
    } else {
        0
    }
}

/// The number of leading whitespace characters
pub open spec fn leading_space(s: Seq<char>) -> int
    decreases s.len(),
{
    if s.len() > 0 && is_white_space(s[0]) {
        1 + leading_space(s.drop_first())
    } else {
        0
    }
}

pub proof fn lemma_trailing_space(s: Seq<char>)
    ensures
        0 <= trailing_space(s) <= s.len(),
    decreases s.len(),
{
    if s.len() > 0 && is_white_space(s.last()) {
        lemma_trailing_space(s.drop_last());
    }
}

pub proof fn lemma_leading_space(s: Seq<char>)
    ensures
        0 <= leading_space(s) <= s.len(),
    decreases s.len(),
{
    if s.len() > 0 && is_white_space(s[0]) {
        lemma_leading_space(s.drop_first());
    }
}

/// `s` without trailing whitespace
pub open spec fn trim_end_seq(s: Seq<char>) -> Seq<char> {
    s.take(s.len() - trailing_space(s))
}

/// `s` without leading or trailing whitespace
pub open spec fn trim_seq(s: Seq<char>) -> Seq<char> {
    let front = s.skip(leading_space(s));
    trim_end_seq(front)
}

pub fn trim_end(v: &[char]) -> (r: Vec<char>)
    ensures
        r@ == trim_end_seq(v@),
{
    proof {
        lemma_trailing_space(v@);
    }
    let mut end: usize = v.len();
    assert(v@.take(v@.len() as int) =~= v@);
    while end > 0 && char_is_whitespace(v[end - 1])
        invariant
            end <= v@.len(),
            trailing_space(v@) == (v@.len() - end) + trailing_space(v@.take(end as int)),
        decreases end,
    {
        assert(v@.take(end as int).drop_last() =~= v@.take(end - 1));
        end = end - 1;
    }
    proof {
        if end > 0 {
            assert(v@.take(end as int).last() == v@[end - 1]);
        }
        assert(v@.take(v@.len() as int) =~= v@);
    }
    let mut out: Vec<char> = Vec::new();
    let mut i: usize = 0;
    while i < end
        invariant
            end <= v@.len(),
            i <= end,
            out@ == v@.take(i as int),
        decreases end - i,
    {
        out.push(v[i]);
        assert(v@.take(i + 1) =~= v@.take(i as int).push(v@[i as int]));
        i = i + 1;
    }
    out
}

pub fn trim(v: &[char]) -> (r: Vec<char>)
    ensures
        r@ == trim_seq(v@),
{
    proof {
        lemma_leading_space(v@);
    }
    let mut start: usize = 0;
    assert(v@.skip(0) =~= v@);
    while start < v.len() && char_is_whitespace(v[start])
        invariant
            start <= v@.len(),
            leading_space(v@) == start + leading_space(v@.skip(start as int)),
        decreases v@.len() - start,
    {
        assert(v@.skip(start as int).drop_first() =~= v@.skip(start + 1));
        start = start + 1;
    }
    proof {
        if start < v@.len() {
            assert(v@.skip(start as int)[0] == v@[start as int]);
        }
    }
    let mut front: Vec<char> = Vec::new();
    let mut i: usize = start;
    while i < v.len()
        invariant
            start <= i <= v@.len(),
            front@ == v@.subrange(start as int, i as int),
        decreases v@.len() - i,
    {
        front.push(v[i]);
        assert(v@.subrange(start as int, i + 1) =~= v@.subrange(start as int, i as int).push(v@[i as int]));
        i = i + 1;
    }
    assert(front@ =~= v@.skip(start as int));
    trim_end(front.as_slice())
}

/// The leading run of whitespace: all of it white, and the character after it, if any, not.
proof fn lemma_leading_run(s: Seq<char>)
    ensures
        0 <= leading_space(s) <= s.len(),
        forall|k: int| 0 <= k < leading_space(s) ==> is_white_space(#[trigger] s[k]),
        leading_space(s) < s.len() ==> !is_white_space(s[leading_space(s)]),
    decreases s.len(),
{
    if s.len() > 0 && is_white_space(s[0]) {
        let t = s.drop_first();
        lemma_leading_run(t);
        assert forall|k: int| 0 <= k < leading_space(s) implies is_white_space(#[trigger] s[k]) by {
            if k > 0 {
                assert(s[k] == t[k - 1]);
            }
        }
        if leading_space(s) < s.len() {
            assert(s[leading_space(s)] == t[leading_space(t)]);
        }
    }
}

/// The trailing run of whitespace: all of it white, and the character before it, if any, not.
proof fn lemma_trailing_run(s: Seq<char>)
    ensures
        0 <= trailing_space(s) <= s.len(),
        forall|k: int| s.len() - trailing_space(s) <= k < s.len() ==> is_white_space(#[trigger] s[k]),
        trailing_space(s) < s.len() ==> !is_white_space(s[s.len() - trailing_space(s) - 1]),
    decreases s.len(),
{
    if s.len() > 0 && is_white_space(s.last()) {
        let t = s.drop_last();
        lemma_trailing_run(t);
        assert forall|k: int| s.len() - trailing_space(s) <= k < s.len() implies is_white_space(#[trigger] s[k]) by {
            if k < s.len() - 1 {
                assert(s[k] == t[k]);
            }
        }
        if trailing_space(s) < s.len() {
            assert(s[s.len() - trailing_space(s) - 1] == t[t.len() - trailing_space(t) - 1]);
        }
    }
}

/// Trimming keeps one stretch of the text: everything cut off before and after it is
/// whitespace, and what is kept neither starts nor ends with whitespace.
pub proof fn law_trim(s: Seq<char>)
    ensures
        exists|i: int| {
            &&& 0 <= i
            &&& i + trim_seq(s).len() <= s.len()
            &&& #[trigger] s.subrange(i, i + trim_seq(s).len()) == trim_seq(s)
            &&& forall|k: int| 0 <= k < i ==> is_white_space(#[trigger] s[k])
            &&& forall|k: int| i + trim_seq(s).len() <= k < s.len() ==> is_white_space(#[trigger] s[k])
        },
        trim_seq(s).len() > 0 ==> !is_white_space(trim_seq(s)[0]) && !is_white_space(trim_seq(s).last()),
{
    let l = leading_space(s);
    lemma_leading_run(s);
    let f = s.skip(l);
    lemma_trailing_run(f);
    let t = trim_seq(s);
    let e = f.len() - trailing_space(f);
    assert(t =~= s.subrange(l, l + e));
    assert forall|k: int| l + e <= k < s.len() implies is_white_space(#[trigger] s[k]) by {
        assert(s[k] == f[k - l]);
    }
    assert(s.subrange(l, l + t.len()) == t);
    if t.len() > 0 {
        assert(t[0] == f[0]);
        assert(f[0] == s[l]);
        assert(t.last() == f[e - 1]);
    }
}

/// Whether `needle` occurs in `hay` starting at position `i`
pub open spec fn occurs_at(hay: Seq<char>, needle: Seq<char>, i: int) -> bool {
    0 <= i && i + needle.len() <= hay.len() && hay.subrange(i, i + needle.len()) == needle
}

pub open spec fn contains_seq(hay: Seq<char>, needle: Seq<char>) -> bool {
    exists|i: int| occurs_at(hay, needle, i)
}

/// Whether `needle` occurs in `hay`
pub fn contains(hay: &[char], needle: &[char]) -> (r: bool)
    ensures
        r == contains_seq(hay@, needle@),
{
    if needle.len() > hay.len() {
        return false;
    }
    let mut i: usize = 0;
    let last_start = hay.len() - needle.len();
    loop
        invariant
            needle@.len() <= hay@.len(),
            last_start == hay@.len() - needle@.len(),
            i <= last_start,
            forall|k: int| 0 <= k < i ==> !occurs_at(hay@, needle@, k),
        decreases last_start - i,
    {
        let mut j: usize = 0;
        let mut same = true;
        while j < needle.len()
            invariant
                i <= last_start,
                last_start == hay@.len() - needle@.len(),
                i + needle@.len() <= hay.len(),
                j <= needle@.len(),
                same == (forall|k: int| 0 <= k < j ==> hay@[i + k] == needle@[k]),
            decreases needle@.len() - j,
        {
            if hay[i + j] != needle[j] {
                same = false;
            }
            j = j + 1;
        }
        if same {
            assert(hay@.subrange(i as int, i + needle@.len()) =~= needle@);
            assert(occurs_at(hay@, needle@, i as int));
            return true;
        }
        proof {
            if occurs_at(hay@, needle@, i as int) {
                let k = choose|k: int| 0 <= k < needle@.len() && hay@[i + k] != needle@[k];
                assert(hay@.subrange(i as int, i + needle@.len())[k] == hay@[i + k]);
            }
        }
        if i == last_start {
            proof {
                assert forall|k: int| !occurs_at(hay@, needle@, k) by {
                    if k > i {
                        assert(k + needle@.len() > hay@.len());
                    }
                }
            }
            return false;
        }
        i = i + 1;
    }
}

/// A byte with ASCII upper case letters made lower case
pub open spec fn lower_byte(b: u8) -> u8 {
    if 65 <= b <= 90 {
        (b + 32) as u8
    } else {
        b
    }
}

/// ASCII case folding agrees everywhere it is done: on characters, on bytes here, and on the
/// bytes of C strings; each maps exactly the 26 capitals to the small letters, 32 above.
pub proof fn law_case_folds_agree(c: char)
    requires
        (c as u32) < 256,
    ensures
        ascii_lower(c) as u32 == lower_byte(c as u8),
        lower_byte(c as u8) == crate::cstr::lower_of(c as u8),
        lower_byte(c as u8) != c as u8 <==> 65 <= c as u32 <= 90,
        65 <= c as u32 <= 90 ==> lower_byte(c as u8) == c as u32 + 32,
{
}

/// Whether the bytes of `hay` from `at` are those of `needle`, up to ASCII
/// case
pub open spec fn matches_at(hay: Seq<u8>, needle: Seq<u8>, at: int) -> bool {
    &&& 0 <= at
    &&& at + needle.len() <= hay.len()
    &&& forall|k: int| 0 <= k < needle.len() ==> lower_byte(#[trigger] hay[at + k]) == lower_byte(needle[k])
}

/// The starts of the non-overlapping occurrences of `needle` in `hay` from
/// `start` on, found left to right, up to ASCII case; an empty needle has none
pub open spec fn occurrences_from(hay: Seq<u8>, needle: Seq<u8>, start: int) -> Seq<int>
    decreases hay.len() - start,
{
    if needle.len() == 0 || start < 0 || start + needle.len() > hay.len() {
        Seq::empty()
    } else if matches_at(hay, needle, start) {
        seq![start] + occurrences_from(hay, needle, start + needle.len())
    } else {
        occurrences_from(hay, needle, start + 1)
    }
}

/// Bytes match up to ASCII case exactly when they are equal or are the capital and the small
/// form of one letter, 32 apart.
pub proof fn law_case_fold(x: u8, y: u8)
    ensures
        (lower_byte(x) == lower_byte(y)) <==> (x == y || (65 <= x <= 90 && y == x + 32) || (65 <= y
            <= 90 && x == y + 32)),
{
}

/// The occurrences found from `start` are matches, at or after `start`, in increasing order
/// and without overlap; and no match is missed but one that overlaps an occurrence found
/// before it: every match from `start` on lies within a found occurrence's span or starts one.
pub proof fn law_occurrences(hay: Seq<u8>, needle: Seq<u8>, start: int)
    requires
        0 <= start,
    ensures
        ({
            let o = occurrences_from(hay, needle, start);
            &&& forall|i: int| 0 <= i < o.len() ==> start <= #[trigger] o[i] && matches_at(hay, needle, o[i])
            &&& forall|i: int, j: int| 0 <= i < j < o.len() ==> #[trigger] o[i] + needle.len() <= #[trigger] o[j]
            &&& forall|p: int| start <= p && #[trigger] matches_at(hay, needle, p) && needle.len() > 0
                ==> exists|i: int| 0 <= i < o.len() && #[trigger] o[i] <= p < o[i] + needle.len()
        }),
    decreases hay.len() - start,
{
    let o = occurrences_from(hay, needle, start);
    let n = needle.len();
    if n == 0 || start + n > hay.len() {
        assert forall|p: int| start <= p && #[trigger] matches_at(hay, needle, p) && needle.len() > 0
            implies exists|i: int| 0 <= i < o.len() && #[trigger] o[i] <= p < o[i] + needle.len() by {
            assert(false);
        }
    } else if matches_at(hay, needle, start) {
        law_occurrences(hay, needle, start + n);
        let rest = occurrences_from(hay, needle, start + n);
        assert(o == seq![start] + rest);
        assert forall|i: int| 0 <= i < o.len() implies start <= #[trigger] o[i] && matches_at(hay, needle, o[i]) by {
            if i > 0 {
                assert(o[i] == rest[i - 1]);
            }
        }
        assert forall|i: int, j: int| 0 <= i < j < o.len() implies #[trigger] o[i] + needle.len() <= #[trigger] o[j] by {
            assert(o[j] == rest[j - 1]);
            if i > 0 {
                assert(o[i] == rest[i - 1]);
            }
        }
        assert forall|p: int| start <= p && #[trigger] matches_at(hay, needle, p) && needle.len() > 0
            implies exists|i: int| 0 <= i < o.len() && #[trigger] o[i] <= p < o[i] + needle.len() by {
            if p < start + n {
                assert(o[0] == start);
            } else {
                let i = choose|i: int| 0 <= i < rest.len() && #[trigger] rest[i] <= p < rest[i] + needle.len();
                assert(o[i + 1] == rest[i]);
            }
        }
    } else {
        law_occurrences(hay, needle, start + 1);
        assert forall|p: int| start <= p && #[trigger] matches_at(hay, needle, p) && needle.len() > 0
            implies exists|i: int| 0 <= i < o.len() && #[trigger] o[i] <= p < o[i] + needle.len() by {
            assert(p != start);
        }
    }
}

fn lower(b: u8) -> (r: u8)
    ensures
        r == lower_byte(b),
{
    if 65 <= b && b <= 90 {
        b + 32
    } else {
        b
    }
}

/// The byte offsets where `query` occurs in `text`, ignoring ASCII case,
/// without overlapping, from left to right
pub fn match_positions(text: &str, query: &str) -> (r: Vec<usize>)
    ensures
        r@.map_values(|p: usize| p as int) == occurrences_from(text.spec_bytes(), query.spec_bytes(), 0),
{
    let hay = text.as_bytes();
    let needle = query.as_bytes();
    let n = needle.len();
    let mut out: Vec<usize> = Vec::new();
    if n == 0 {
        return out;
    }
    let mut i: usize = 0;
    while i <= hay.len() && hay.len() - i >= n
        invariant
            hay@ == text.spec_bytes(),
            needle@ == query.spec_bytes(),
            n == needle@.len(),
            n > 0,
            i <= hay@.len() + n,
            out@.map_values(|p: usize| p as int) + occurrences_from(hay@, needle@, i as int)
                == occurrences_from(hay@, needle@, 0),
        decreases hay@.len() + n - i,
    {
        let mut k: usize = 0;
        let mut same = true;
        while k < n
            invariant
                k <= n,
                n == needle@.len(),
                i + n <= hay.len(),
                same == (forall|m: int| 0 <= m < k ==> lower_byte(#[trigger] hay@[i + m]) == lower_byte(needle@[m])),
            decreases n - k,
        {
            if lower(hay[i + k]) != lower(needle[k]) {
                same = false;
            }
            k = k + 1;
        }
        if same {
            proof {
                assert(matches_at(hay@, needle@, i as int));
                assert(out@.push(i).map_values(|p: usize| p as int) =~= out@.map_values(|p: usize| p as int) + seq![i as int]);
            }
            out.push(i);
            i = i + n;
        } else {
            proof {
                assert(!matches_at(hay@, needle@, i as int));
            }
            i = i + 1;
        }
    }
    proof {
        assert(occurrences_from(hay@, needle@, i as int) == Seq::<int>::empty());
        assert(out@.map_values(|p: usize| p as int) + Seq::<int>::empty() =~= out@.map_values(|p: usize| p as int));
    }
    out
}

} // verus!
