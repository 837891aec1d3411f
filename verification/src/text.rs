//! Character-level text primitives shared by the analyses: whitespace and
//! trimming, pattern occurrence, line splitting, byte-range slicing of UTF-8
//! strings and decimal rendering of numbers.

use vstd::prelude::*;
use vstd::string::StringSliceAdditionalSpecFns;
use vstd::string::StringExecFns;

verus! {

/// The characters of a string slice, in order.
pub fn chars_of(s: &str) -> (out: Vec<char>)
    ensures
        out@ == s@,
{
    let mut out: Vec<char> = Vec::new();
    for c in it: s.chars()
        invariant
            out@ == it.seq().take(it.index() as int),
            it.seq() == s@,
    {
        out.push(c);
    }
    out
}

/// Wraps std's `FromIterator<char> for String` (`Iterator::collect`): the
/// collected string consists of exactly the given characters, in order.
#[verifier::external_body]
pub(crate) fn string_from_chars(chars: &[char]) -> (s: String)
    ensures
        s@ == chars@,
{
    chars.iter().collect()
}

/// A `String` holding the characters of `s`.
pub fn to_string(s: &str) -> (out: String)
    ensures
        out@ == s@,
{
    s.to_owned()
}

/// Whether two character vectors are equal.
pub fn chars_eq(a: &Vec<char>, b: &Vec<char>) -> (r: bool)
    ensures
        r == (a@ == b@),
{
    if a.len() != b.len() {
        return false;
    }
    let mut i: usize = 0;
    while i < a.len()
        invariant
            a.len() == b.len(),
            i <= a.len(),
            forall|j: int| 0 <= j < i ==> a@[j] == b@[j],
        decreases a.len() - i,
    {
        if a[i] != b[i] {
            return false;
        }
        i += 1;
    }
    assert(a@ =~= b@);
    true
}

/// Whether two strings are equal.
pub fn str_eq(a: &str, b: &str) -> (r: bool)
    ensures
        r == (a@ == b@),
{
    let ca = chars_of(a);
    let cb = chars_of(b);
    chars_eq(&ca, &cb)
}

/// `pat` occurs in `s` starting at position `i`.
pub open spec fn occurs_at(s: Seq<char>, i: int, pat: Seq<char>) -> bool {
    0 <= i && i + pat.len() <= s.len() && s.subrange(i, i + pat.len()) == pat
}

/// `s` begins with `pat`.
pub open spec fn starts_with(s: Seq<char>, pat: Seq<char>) -> bool {
    occurs_at(s, 0, pat)
}

/// `s` ends with `pat`.
pub open spec fn ends_with(s: Seq<char>, pat: Seq<char>) -> bool {
    occurs_at(s, s.len() - pat.len(), pat)
}

/// `pat` occurs somewhere in `s`.
#[verifier::opaque]
pub open spec fn contains(s: Seq<char>, pat: Seq<char>) -> bool {
    exists|i: int| occurs_at(s, i, pat)
}

/// The first position at which `pat` occurs in `s`, if any.
#[verifier::opaque]
pub open spec fn find(s: Seq<char>, pat: Seq<char>) -> Option<int> {
    if contains(s, pat) {
        Some(choose|i: int| occurs_at(s, i, pat) && forall|j: int| 0 <= j < i ==> !occurs_at(s, j, pat))
    } else {
        None
    }
}

pub fn matches_at(s: &Vec<char>, i: usize, pat: &[char]) -> (b: bool)
    ensures
        b == occurs_at(s@, i as int, pat@),
{
    if i > s.len() || pat.len() > s.len() - i {
        return false;
    }
    let mut k: usize = 0;
    while k < pat.len()
        invariant
            i + pat.len() <= s.len(),
            k <= pat.len(),
            forall|j: int| 0 <= j < k ==> s@[i + j] == pat@[j],
        decreases pat.len() - k,
    {
        if s[i + k] != pat[k] {
            assert(s@.subrange(i as int, i + pat.len())[k as int] != pat@[k as int]);
            return false;
        }
        k += 1;
    }
    assert(s@.subrange(i as int, i + pat.len()) =~= pat@);
    true
}

/// Occurrence inside a window is occurrence inside the subrange.
pub proof fn lemma_occurs_in_subrange(s: Seq<char>, lo: int, hi: int, i: int, pat: Seq<char>)
    requires
        0 <= lo <= hi <= s.len(),
    ensures
        occurs_at(s.subrange(lo, hi), i, pat) <==> (0 <= i && lo + i + pat.len() <= hi
            && occurs_at(s, lo + i, pat)),
{
    let w = s.subrange(lo, hi);
    if 0 <= i && lo + i + pat.len() <= hi {
        assert(w.subrange(i, i + pat.len()) =~= s.subrange(lo + i, lo + i + pat.len()));
    }
}

/// What `find` gives: the first occurrence, or none where there is none.
pub proof fn lemma_find(s: Seq<char>, pat: Seq<char>)
    ensures
        match find(s, pat) {
            Some(p) => occurs_at(s, p, pat) && forall|j: int| 0 <= j < p ==> !occurs_at(s, j, pat),
            None => forall|j: int| !occurs_at(s, j, pat),
        },
        contains(s, pat) <==> find(s, pat) is Some,
{
    reveal(contains);
    reveal(find);
    if contains(s, pat) {
        let i = choose|i: int| occurs_at(s, i, pat);
        lemma_first_occurrence(s, pat, i);
    }
}

proof fn lemma_first_occurrence(s: Seq<char>, pat: Seq<char>, i: int)
    requires
        occurs_at(s, i, pat),
    ensures
        exists|m: int| occurs_at(s, m, pat) && forall|j: int| 0 <= j < m ==> !occurs_at(s, j, pat),
    decreases i,
{
    if exists|j: int| 0 <= j < i && occurs_at(s, j, pat) {
        let j = choose|j: int| 0 <= j < i && occurs_at(s, j, pat);
        lemma_first_occurrence(s, pat, j);
    } else {
        assert(forall|j: int| 0 <= j < i ==> !occurs_at(s, j, pat));
    }
}

/// Whether `pat` occurs within `s[lo..hi]`.
pub fn contains_in(s: &Vec<char>, lo: usize, hi: usize, pat: &[char]) -> (b: bool)
    requires
        lo <= hi <= s.len(),
    ensures
        b == contains(s@.subrange(lo as int, hi as int), pat@),
{
    reveal(contains);
    let ghost w = s@.subrange(lo as int, hi as int);
    if pat.len() > hi - lo {
        assert forall|i: int| !occurs_at(w, i, pat@) by {}
        return false;
    }
    let limit = hi - pat.len();
    let mut i: usize = lo;
    loop
        invariant
            lo <= i <= limit,
            limit == hi - pat.len(),
            hi <= s.len(),
            w == s@.subrange(lo as int, hi as int),
            forall|j: int| 0 <= j < i - lo ==> !occurs_at(w, j, pat@),
        ensures
            forall|j: int| 0 <= j <= limit - lo ==> !occurs_at(w, j, pat@),
        decreases limit - i,
    {
        proof {
            lemma_occurs_in_subrange(s@, lo as int, hi as int, i - lo, pat@);
        }
        if matches_at(s, i, pat) {
            proof {
                reveal(contains);
                assert(occurs_at(w, i - lo, pat@));
            }
            return true;
        }
        if i == limit {
            break;
        }
        i += 1;
    }
    assert forall|j: int| !occurs_at(w, j, pat@) by {
        if 0 <= j <= limit - lo {
        } else {
            lemma_occurs_in_subrange(s@, lo as int, hi as int, j, pat@);
        }
    }
    false
}

/// The first position, counted from `lo`, at which `pat` occurs within
/// `s[lo..hi]`.
pub fn find_in(s: &Vec<char>, lo: usize, hi: usize, pat: &[char]) -> (r: Option<usize>)
    requires
        lo <= hi <= s.len(),
    ensures
        match r {
            Some(p) => find(s@.subrange(lo as int, hi as int), pat@) == Some(p as int) && p
                + pat.len() <= hi - lo,
            None => find(s@.subrange(lo as int, hi as int), pat@) is None,
        },
{
    reveal(contains);
    reveal(find);
    let ghost w = s@.subrange(lo as int, hi as int);
    if pat.len() > hi - lo {
        assert forall|i: int| !occurs_at(w, i, pat@) by {}
        return None;
    }
    let limit = hi - pat.len();
    let mut i: usize = lo;
    loop
        invariant
            lo <= i <= limit,
            limit == hi - pat.len(),
            hi <= s.len(),
            w == s@.subrange(lo as int, hi as int),
            forall|j: int| 0 <= j < i - lo ==> !occurs_at(w, j, pat@),
        ensures
            forall|j: int| 0 <= j <= limit - lo ==> !occurs_at(w, j, pat@),
        decreases limit - i,
    {
        proof {
            lemma_occurs_in_subrange(s@, lo as int, hi as int, i - lo, pat@);
        }
        if matches_at(s, i, pat) {
            proof {
                reveal(contains);
                reveal(find);
                let p = i - lo;
                assert(occurs_at(w, p, pat@));
                let c = choose|c: int| occurs_at(w, c, pat@) && forall|j: int| 0 <= j < c ==> !occurs_at(w, j, pat@);
                assert(occurs_at(w, c, pat@) && forall|j: int| 0 <= j < c ==> !occurs_at(w, j, pat@));
                if c < p {
                    assert(!occurs_at(w, c, pat@));
                } else if c > p {
                    assert(!occurs_at(w, p, pat@));
                }
            }
            return Some(i - lo);
        }
        if i == limit {
            break;
        }
        i += 1;
    }
    assert forall|j: int| !occurs_at(w, j, pat@) by {
        if 0 <= j <= limit - lo {
        } else {
            lemma_occurs_in_subrange(s@, lo as int, hi as int, j, pat@);
        }
    }
    None
}

/// Whether `s[lo..hi]` begins with `pat`.
pub fn starts_with_in(s: &Vec<char>, lo: usize, hi: usize, pat: &[char]) -> (b: bool)
    requires
        lo <= hi <= s.len(),
    ensures
        b == starts_with(s@.subrange(lo as int, hi as int), pat@),
{
    proof {
        lemma_occurs_in_subrange(s@, lo as int, hi as int, 0, pat@);
    }
    pat.len() <= hi - lo && matches_at(s, lo, pat)
}

/// Whether `s[lo..hi]` is exactly `pat`.
pub fn equals_in(s: &Vec<char>, lo: usize, hi: usize, pat: &[char]) -> (b: bool)
    requires
        lo <= hi <= s.len(),
    ensures
        b == (s@.subrange(lo as int, hi as int) == pat@),
{
    proof {
        lemma_occurs_in_subrange(s@, lo as int, hi as int, 0, pat@);
        if pat@.len() == hi - lo {
            assert(s@.subrange(lo as int, hi as int).subrange(0, pat@.len() as int) =~= s@.subrange(
                lo as int,
                hi as int,
            ));
        }
    }
    pat.len() == hi - lo && matches_at(s, lo, pat)
}

/// Unicode `White_Space`, as std's `char::is_whitespace` documents it.
pub open spec fn is_whitespace(c: char) -> bool {
    let u = c as u32;
    ||| 0x09 <= u <= 0x0D
    ||| u == 0x20
    ||| u == 0x85
    ||| u == 0xA0
    ||| u == 0x1680
    ||| 0x2000 <= u <= 0x200A
    ||| u == 0x2028
    ||| u == 0x2029
    ||| u == 0x202F
    ||| u == 0x205F
    ||| u == 0x3000
}

/// ASCII whitespace, as std's `char::is_ascii_whitespace` documents it.
pub open spec fn is_ascii_whitespace(c: char) -> bool {
    c == ' ' || c == '\t' || c == '\n' || c == '\x0C' || c == '\r'
}

pub fn whitespace(c: char) -> (b: bool)
    ensures
        b == is_whitespace(c),
{
    let u = c as u32;
    (0x09 <= u && u <= 0x0D) || u == 0x20 || u == 0x85 || u == 0xA0 || u == 0x1680 || (0x2000
        <= u && u <= 0x200A) || u == 0x2028 || u == 0x2029 || u == 0x202F || u == 0x205F || u
        == 0x3000
}

/// `s` without its leading whitespace.
pub open spec fn trim_start(s: Seq<char>) -> Seq<char>
    decreases s.len(),
{
    if s.len() > 0 && is_whitespace(s[0]) {
        trim_start(s.drop_first())
    } else {
        s
    }
}

/// `s` without its trailing whitespace.
pub open spec fn trim_end(s: Seq<char>) -> Seq<char>
    decreases s.len(),
{
    if s.len() > 0 && is_whitespace(s.last()) {
        trim_end(s.drop_last())
    } else {
        s
    }
}

/// `s` without leading and trailing whitespace (std's `str::trim`).
pub open spec fn trim(s: Seq<char>) -> Seq<char> {
    trim_end(trim_start(s))
}

/// The bounds of `s[lo..hi]` once trimmed.
pub fn trim_bounds(s: &Vec<char>, lo: usize, hi: usize) -> (r: (usize, usize))
    requires
        lo <= hi <= s.len(),
    ensures
        lo <= r.0 <= r.1 <= hi,
        s@.subrange(r.0 as int, r.1 as int) == trim(s@.subrange(lo as int, hi as int)),
{
    let mut a = lo;
    while a < hi && whitespace(s[a])
        invariant
            lo <= a <= hi <= s.len(),
            trim_start(s@.subrange(lo as int, hi as int)) == trim_start(
                s@.subrange(a as int, hi as int),
            ),
        decreases hi - a,
    {
        assert(s@.subrange(a as int, hi as int).drop_first() =~= s@.subrange(a + 1, hi as int));
        a += 1;
    }
    let mut b = hi;
    while b > a && whitespace(s[b - 1])
        invariant
            lo <= a <= b <= hi <= s.len(),
            trim(s@.subrange(lo as int, hi as int)) == trim_end(s@.subrange(a as int, b as int)),
        decreases b - a,
    {
        assert(s@.subrange(a as int, b as int).drop_last() =~= s@.subrange(a as int, b - 1));
        b -= 1;
    }
    (a, b)
}

/// `s` without the copies of `c` it begins with.
pub open spec fn strip_char_start(s: Seq<char>, c: char) -> Seq<char>
    decreases s.len(),
{
    if s.len() > 0 && s[0] == c {
        strip_char_start(s.drop_first(), c)
    } else {
        s
    }
}

/// `s` without the copies of `c` it ends with.
pub open spec fn strip_char_end(s: Seq<char>, c: char) -> Seq<char>
    decreases s.len(),
{
    if s.len() > 0 && s.last() == c {
        strip_char_end(s.drop_last(), c)
    } else {
        s
    }
}

/// `s` with every leading and trailing `c` removed (std's
/// `str::trim_matches` with a character pattern).
pub open spec fn trim_char(s: Seq<char>, c: char) -> Seq<char> {
    strip_char_end(strip_char_start(s, c), c)
}

/// The bounds of `s[lo..hi]` once `c` is trimmed from both ends.
pub fn trim_char_bounds(s: &Vec<char>, lo: usize, hi: usize, c: char) -> (r: (usize, usize))
    requires
        lo <= hi <= s.len(),
    ensures
        lo <= r.0 <= r.1 <= hi,
        s@.subrange(r.0 as int, r.1 as int) == trim_char(s@.subrange(lo as int, hi as int), c),
{
    let mut a = lo;
    while a < hi && s[a] == c
        invariant
            lo <= a <= hi <= s.len(),
            strip_char_start(s@.subrange(lo as int, hi as int), c) == strip_char_start(
                s@.subrange(a as int, hi as int),
                c,
            ),
        decreases hi - a,
    {
        assert(s@.subrange(a as int, hi as int).drop_first() =~= s@.subrange(a + 1, hi as int));
        a += 1;
    }
    let mut b = hi;
    while b > a && s[b - 1] == c
        invariant
            lo <= a <= b <= hi <= s.len(),
            trim_char(s@.subrange(lo as int, hi as int), c) == strip_char_end(
                s@.subrange(a as int, b as int),
                c,
            ),
        decreases b - a,
    {
        assert(s@.subrange(a as int, b as int).drop_last() =~= s@.subrange(a as int, b - 1));
        b -= 1;
    }
    (a, b)
}

/// The characters of `s` trimmed.
pub fn trimmed(s: &Vec<char>) -> (out: Vec<char>)
    ensures
        out@ == trim(s@),
{
    let (a, b) = trim_bounds(s, 0, s.len());
    assert(s@.subrange(0, s@.len() as int) =~= s@);
    slice_to_vec(s, a, b)
}

/// A copy of `s[lo..hi]`.
pub fn slice_to_vec(s: &Vec<char>, lo: usize, hi: usize) -> (out: Vec<char>)
    requires
        lo <= hi <= s.len(),
    ensures
        out@ == s@.subrange(lo as int, hi as int),
{
    let mut out: Vec<char> = Vec::new();
    let mut i = lo;
    while i < hi
        invariant
            lo <= i <= hi <= s.len(),
            out@ == s@.subrange(lo as int, i as int),
        decreases hi - i,
    {
        out.push(s[i]);
        i += 1;
    }
    out
}

/// The lines of `s[start..]` while scanning at `i`, the current line having
/// begun at `start`.
pub open spec fn lines_scan(s: Seq<char>, i: int, start: int) -> Seq<Seq<char>>
    decreases s.len() - i,
{
    if i >= s.len() {
        seq![s.subrange(start, s.len() as int)]
    } else if s[i] == '\n' {
        seq![s.subrange(start, i)] + lines_scan(s, i + 1, i + 1)
    } else {
        lines_scan(s, i + 1, start)
    }
}

/// Splits `s` at every `'\n'`; the pieces exclude the separators.
pub open spec fn split_lines(s: Seq<char>) -> Seq<Seq<char>> {
    lines_scan(s, 0, 0)
}

/// The end of the line that starts at `start`: the index of the next `'\n'`,
/// or the end of `s`.
pub fn line_end(s: &Vec<char>, start: usize) -> (k: usize)
    requires
        start <= s.len(),
    ensures
        start <= k <= s.len(),
        forall|j: int| start <= j < k ==> s@[j] != '\n',
        k < s.len() ==> s@[k as int] == '\n',
{
    let mut k = start;
    while k < s.len() && s[k] != '\n'
        invariant
            start <= k <= s.len(),
            forall|j: int| start <= j < k ==> s@[j] != '\n',
        decreases s.len() - k,
    {
        k += 1;
    }
    k
}

/// The line structure from `start` when the line beginning there ends at `k`.
pub proof fn lemma_lines_from(s: Seq<char>, start: int, k: int)
    requires
        0 <= start <= k <= s.len(),
        forall|j: int| start <= j < k ==> s[j] != '\n',
        k < s.len() ==> s[k] == '\n',
    ensures
        k < s.len() ==> lines_scan(s, start, start) == seq![s.subrange(start, k)] + lines_scan(
            s,
            k + 1,
            k + 1,
        ),
        k == s.len() ==> lines_scan(s, start, start) == seq![s.subrange(start, k)],
{
    lemma_lines_scan_line(s, start, k, start);
}

proof fn lemma_lines_scan_line(s: Seq<char>, start: int, k: int, i: int)
    requires
        0 <= start <= i <= k <= s.len(),
        forall|j: int| start <= j < k ==> s[j] != '\n',
        k < s.len() ==> s[k] == '\n',
    ensures
        k < s.len() ==> lines_scan(s, i, start) == seq![s.subrange(start, k)] + lines_scan(
            s,
            k + 1,
            k + 1,
        ),
        k == s.len() ==> lines_scan(s, i, start) == seq![s.subrange(start, k)],
    decreases k - i,
{
    if i < k {
        lemma_lines_scan_line(s, start, k, i + 1);
    }
}

/// Byte range `[start, end)` of the UTF-8 encoding of `cs` lies on
/// character boundaries.
pub open spec fn chars_range_ok(cs: Seq<char>, start: int, end: int) -> bool {
    let b = vstd::utf8::encode_utf8(cs);
    &&& 0 <= start <= end <= b.len()
    &&& vstd::utf8::is_char_boundary(b, start)
    &&& vstd::utf8::is_char_boundary(b, end)
}

/// The characters encoded by bytes `[start, end)` of the UTF-8 encoding of
/// `cs`.
pub open spec fn chars_in_range(cs: Seq<char>, start: int, end: int) -> Seq<char> {
    vstd::utf8::decode_utf8(vstd::utf8::encode_utf8(cs).subrange(start, end))
}

/// Byte range `[start, end)` of `s` lies on character boundaries.
pub open spec fn byte_range_ok(s: &str, start: int, end: int) -> bool {
    chars_range_ok(s@, start, end)
}

/// The characters encoded by bytes `[start, end)` of `s`.
pub open spec fn byte_range_chars(s: &str, start: int, end: int) -> Seq<char> {
    chars_in_range(s@, start, end)
}

/// The substring of `s` held by bytes `[start, end)` (std's `&s[start..end]`).
pub fn byte_slice(s: &str, start: usize, end: usize) -> (r: &str)
    requires
        byte_range_ok(s, start as int, end as int),
    ensures
        r@ == byte_range_chars(s, start as int, end as int),
        r.spec_bytes() == s.spec_bytes().subrange(start as int, end as int),
{
    broadcast use vstd::utf8::encode_utf8_valid_utf8, vstd::utf8::decode_utf8_encode_utf8,
        vstd::utf8::encode_utf8_decode_utf8, vstd::utf8::is_char_boundary_start_end_of_seq;

    let ghost bytes = s.spec_bytes();
    let (head, _) = s.split_at(end);
    proof {
        let hb = bytes.subrange(0, end as int);
        assert(head.spec_bytes() == hb);
        vstd::utf8::valid_utf8_split(bytes, end as int);
        if start < end {
            vstd::utf8::is_char_boundary_iff_not_is_continuation_byte(bytes, start as int);
            vstd::utf8::is_char_boundary_iff_not_is_continuation_byte(hb, start as int);
        }
    }
    let (_, mid) = head.split_at(start);
    proof {
        assert(mid.spec_bytes() =~= bytes.subrange(start as int, end as int));
    }
    mid
}

/// The decimal digit character for `d < 10`.
pub open spec fn digit_char(d: nat) -> char {
    seq!['0', '1', '2', '3', '4', '5', '6', '7', '8', '9'][d as int]
}

/// The decimal representation of `n`, without leading zeros.
pub open spec fn decimal(n: nat) -> Seq<char>
    decreases n,
{
    if n < 10 {
        seq![digit_char(n)]
    } else {
        decimal(n / 10).push(digit_char(n % 10))
    }
}

fn decimal_chars(n: usize) -> (out: Vec<char>)
    ensures
        out@ == decimal(n as nat),
    decreases n,
{
    let digits: [char; 10] = ['0', '1', '2', '3', '4', '5', '6', '7', '8', '9'];
    let c = digits[n % 10];
    assert(digits@ =~= seq!['0', '1', '2', '3', '4', '5', '6', '7', '8', '9']);
    if n < 10 {
        let mut v = Vec::new();
        v.push(c);
        v
    } else {
        let mut v = decimal_chars(n / 10);
        v.push(c);
        v
    }
}

/// `n` written in decimal (what `n.to_string()` yields for a `usize`).
pub fn decimal_string(n: usize) -> (s: String)
    ensures
        s@ == decimal(n as nat),
{
    let v = decimal_chars(n);
    string_from_chars(v.as_slice())
}

/// Appends `n` written in decimal to `s`.
pub fn append_decimal(s: &mut String, n: usize)
    ensures
        final(s)@ == old(s)@ + decimal(n as nat),
{
    let d = decimal_string(n);
    s.append(d.as_str());
}

/// Whether `pat` occurs within `s[lo..hi]`.
pub fn contains_str_in(s: &Vec<char>, lo: usize, hi: usize, pat: &str) -> (b: bool)
    requires
        lo <= hi <= s.len(),
    ensures
        b == contains(s@.subrange(lo as int, hi as int), pat@),
{
    let p = chars_of(pat);
    contains_in(s, lo, hi, p.as_slice())
}

/// Whether `s[lo..hi]` begins with `pat`.
pub fn starts_with_str_in(s: &Vec<char>, lo: usize, hi: usize, pat: &str) -> (b: bool)
    requires
        lo <= hi <= s.len(),
    ensures
        b == starts_with(s@.subrange(lo as int, hi as int), pat@),
{
    let p = chars_of(pat);
    starts_with_in(s, lo, hi, p.as_slice())
}

/// Whether `s[lo..hi]` is exactly `pat`.
pub fn equals_str_in(s: &Vec<char>, lo: usize, hi: usize, pat: &str) -> (b: bool)
    requires
        lo <= hi <= s.len(),
    ensures
        b == (s@.subrange(lo as int, hi as int) == pat@),
{
    let p = chars_of(pat);
    equals_in(s, lo, hi, p.as_slice())
}

/// The first position, counted from `lo`, at which `pat` occurs within
/// `s[lo..hi]`.
pub fn find_str_in(s: &Vec<char>, lo: usize, hi: usize, pat: &str) -> (r: Option<usize>)
    requires
        lo <= hi <= s.len(),
    ensures
        match r {
            Some(p) => find(s@.subrange(lo as int, hi as int), pat@) == Some(p as int) && p
                + pat@.len() <= hi - lo,
            None => find(s@.subrange(lo as int, hi as int), pat@) is None,
        },
{
    let p = chars_of(pat);
    find_in(s, lo, hi, p.as_slice())
}

/// Whether `pat` occurs in `s`.
pub fn str_contains(s: &str, pat: &str) -> (b: bool)
    ensures
        b == contains(s@, pat@),
{
    let c = chars_of(s);
    assert(c@.subrange(0, c@.len() as int) =~= c@);
    contains_str_in(&c, 0, c.len(), pat)
}

/// Whether `s` begins with `pat`.
pub fn str_starts_with(s: &str, pat: &str) -> (b: bool)
    ensures
        b == starts_with(s@, pat@),
{
    let c = chars_of(s);
    assert(c@.subrange(0, c@.len() as int) =~= c@);
    starts_with_str_in(&c, 0, c.len(), pat)
}

/// Whether `s` ends with `pat`.
pub fn str_ends_with(s: &str, pat: &str) -> (b: bool)
    ensures
        b == ends_with(s@, pat@),
{
    let c = chars_of(s);
    let p = chars_of(pat);
    if p.len() > c.len() {
        return false;
    }
    matches_at(&c, c.len() - p.len(), p.as_slice())
}

} // verus!
