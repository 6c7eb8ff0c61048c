//! Text as sequences of characters: the handful of `str` operations the note
//! format is written in terms of, each stated over `Seq<char>` and implemented
//! over `char` slices.
//!
//! Character classes (`is_whitespace`, `is_alphanumeric`, lower-casing) are
//! Unicode tables and are taken from `std` as they are; everything built on top
//! of them is stated and proved here.
use vstd::prelude::*;

verus! {

// ---------------------------------------------------------------------------
// Character classes, as std defines them.
// ---------------------------------------------------------------------------

/// `char::is_whitespace` beyond ASCII: the rest of the Unicode
/// `White_Space` property.
pub uninterp spec fn unicode_ws(c: char) -> bool;

/// `char::is_alphanumeric` beyond ASCII: Unicode `Alphabetic` or `Numeric`.
pub uninterp spec fn unicode_alnum(c: char) -> bool;

/// `char::is_alphabetic` beyond ASCII: the Unicode `Alphabetic` property.
pub uninterp spec fn unicode_alpha(c: char) -> bool;

/// `char::to_lowercase` beyond ASCII, as the characters it yields.
pub uninterp spec fn unicode_lower(c: char) -> Seq<char>;

/// `str::to_lowercase` of a text with a character beyond ASCII.
pub uninterp spec fn unicode_lower_str(s: Seq<char>) -> Seq<char>;

pub open spec fn is_ascii_char(c: char) -> bool {
    (c as u32) < 128
}

/// Every character is ASCII.
pub open spec fn all_ascii(s: Seq<char>) -> bool {
    forall|i: int| 0 <= i < s.len() ==> is_ascii_char(#[trigger] s[i])
}

/// An ASCII capital as its small letter; anything else as it is.
pub open spec fn ascii_lower_char(c: char) -> char {
    if 'A' <= c && c <= 'Z' {
        ((c as u32) + 32) as char
    } else {
        c
    }
}

/// `str::to_lowercase`: on ASCII text, each capital becomes its small letter
/// (`to_ascii_lowercase`); on other text the mapping is named.
pub open spec fn lower_str(s: Seq<char>) -> Seq<char> {
    if all_ascii(s) {
        Seq::new(s.len(), |i: int| ascii_lower_char(s[i]))
    } else {
        unicode_lower_str(s)
    }
}

/// `char::is_whitespace`: tab through carriage return and space in ASCII, the
/// Unicode `White_Space` property beyond it.
pub open spec fn is_ws(c: char) -> bool {
    if is_ascii_char(c) {
        c == ' ' || ('\t' <= c && c <= '\r')
    } else {
        unicode_ws(c)
    }
}

/// ASCII letters.
pub open spec fn ascii_alpha(c: char) -> bool {
    ('a' <= c && c <= 'z') || ('A' <= c && c <= 'Z')
}

/// ASCII letters and digits.
pub open spec fn ascii_alnum(c: char) -> bool {
    ascii_alpha(c) || ('0' <= c && c <= '9')
}

/// `char::is_alphanumeric`.
pub open spec fn is_alnum(c: char) -> bool {
    if is_ascii_char(c) {
        ascii_alnum(c)
    } else {
        unicode_alnum(c)
    }
}

/// `char::is_alphabetic`.
pub open spec fn is_alpha(c: char) -> bool {
    if is_ascii_char(c) {
        ascii_alpha(c)
    } else {
        unicode_alpha(c)
    }
}

/// `char::to_lowercase`: an ASCII capital becomes its small letter and other
/// ASCII stays as it is.
pub open spec fn lower_char(c: char) -> Seq<char> {
    if 'A' <= c && c <= 'Z' {
        seq![((c as u32) + 32) as char]
    } else if is_ascii_char(c) {
        seq![c]
    } else {
        unicode_lower(c)
    }
}

/// Calls `char::is_whitespace`. Its documentation names the ASCII members of
/// `White_Space` (tab, line feed, vertical tab, form feed, carriage return and
/// space); the rest of the property is named.
#[verifier::external_body]
pub(crate) fn char_is_whitespace(c: char) -> (r: bool)
    ensures
        r == is_ws(c),
        !is_ascii_char(c) ==> r == unicode_ws(c),
{
    c.is_whitespace()
}

/// Calls `char::is_alphanumeric`: for ASCII exactly the letters and digits,
/// beyond ASCII named.
#[verifier::external_body]
pub(crate) fn char_is_alphanumeric(c: char) -> (r: bool)
    ensures
        r == is_alnum(c),
        !is_ascii_char(c) ==> r == unicode_alnum(c),
{
    c.is_alphanumeric()
}

/// Calls `char::is_alphabetic`: for ASCII exactly the letters, beyond ASCII
/// named.
#[verifier::external_body]
pub(crate) fn char_is_alphabetic(c: char) -> (r: bool)
    ensures
        r == is_alpha(c),
        !is_ascii_char(c) ==> r == unicode_alpha(c),
{
    c.is_alphabetic()
}

/// Calls `char::to_lowercase` and collects what it yields. Its documentation
/// promises one or more characters; ASCII maps as `to_ascii_lowercase` does,
/// and the rest of the mapping is named.
#[verifier::external_body]
pub(crate) fn char_to_lowercase(c: char) -> (r: Vec<char>)
    ensures
        r@ == lower_char(c),
        !is_ascii_char(c) ==> r@ == unicode_lower(c),
        r@.len() >= 1,
{
    c.to_lowercase().collect()
}

/// Calls `str::to_lowercase`. On ASCII text it lower-cases each capital and
/// keeps every other character, as `to_ascii_lowercase` does; beyond ASCII
/// the mapping (which depends on context for a final sigma) is named, not
/// restated.
#[verifier::external_body]
pub(crate) fn str_to_lowercase(s: &str) -> (r: String)
    ensures
        r@ == lower_str(s@),
        !all_ascii(s@) ==> r@ == unicode_lower_str(s@),
{
    s.to_lowercase()
}

/// Collects characters into a `String` (`FromIterator<char>`).
#[verifier::external_body]
pub(crate) fn string_of(v: &[char]) -> (r: String)
    ensures
        r@ == v@,
{
    v.iter().collect()
}

// ---------------------------------------------------------------------------
// Conversions.
// ---------------------------------------------------------------------------

/// The characters of `s`, in order.
pub fn chars_of(s: &str) -> (r: Vec<char>)
    ensures
        r@ == s@,
{
    let mut out: Vec<char> = Vec::new();
    for c in it: s.chars()
        invariant
            out@ == it.seq().take(it.index() as int),
            it.seq() == s@,
    {
        out.push(c);
    }
    out
}

/// `s[a..b]` as a fresh vector.
pub fn slice_of(s: &[char], a: usize, b: usize) -> (r: Vec<char>)
    requires
        a <= b <= s@.len(),
    ensures
        r@ == s@.subrange(a as int, b as int),
{
    let mut out: Vec<char> = Vec::new();
    let mut i = a;
    while i < b
        invariant
            a <= i <= b <= s@.len(),
            out@ == s@.subrange(a as int, i as int),
        decreases b - i,
    {
        out.push(s[i]);
        i += 1;
    }
    out
}

/// Appends `b` to `a`.
pub fn push_all(a: &mut Vec<char>, b: &[char])
    ensures
        final(a)@ == old(a)@ + b@,
{
    let mut i: usize = 0;
    while i < b.len()
        invariant
            i <= b@.len(),
            a@ == old(a)@ + b@.subrange(0, i as int),
        decreases b.len() - i,
    {
        a.push(b[i]);
        i += 1;
    }
}

/// Appends the characters of `b` to `a`.
pub fn push_str(a: &mut Vec<char>, b: &str)
    ensures
        final(a)@ == old(a)@ + b@,
{
    let v = chars_of(b);
    push_all(a, v.as_slice());
}

// ---------------------------------------------------------------------------
// Trimming.
// ---------------------------------------------------------------------------

/// First index at or after `i` that is not whitespace, or the end.
pub open spec fn skip_ws(s: Seq<char>, i: int) -> int
    decreases s.len() - i,
{
    if 0 <= i < s.len() && is_ws(s[i]) {
        skip_ws(s, i + 1)
    } else {
        i
    }
}

/// One past the last non-whitespace index before `j`, or zero.
pub open spec fn back_ws(s: Seq<char>, j: int) -> int
    decreases j,
{
    if 0 < j <= s.len() && is_ws(s[j - 1]) {
        back_ws(s, j - 1)
    } else {
        j
    }
}

/// `str::trim_start`.
pub open spec fn trim_start(s: Seq<char>) -> Seq<char> {
    s.subrange(skip_ws(s, 0), s.len() as int)
}

/// `str::trim_end`.
pub open spec fn trim_end(s: Seq<char>) -> Seq<char> {
    s.subrange(0, back_ws(s, s.len() as int))
}

/// `str::trim`.
pub open spec fn trim(s: Seq<char>) -> Seq<char> {
    trim_end(trim_start(s))
}

pub proof fn lemma_skip_ws(s: Seq<char>, i: int)
    requires
        0 <= i <= s.len(),
    ensures
        i <= skip_ws(s, i) <= s.len(),
        skip_ws(s, i) < s.len() ==> !is_ws(s[skip_ws(s, i)]),
        forall|k: int| i <= k < skip_ws(s, i) ==> is_ws(#[trigger] s[k]),
    decreases s.len() - i,
{
    if i < s.len() && is_ws(s[i]) {
        lemma_skip_ws(s, i + 1);
    }
}

pub proof fn lemma_back_ws(s: Seq<char>, j: int)
    requires
        0 <= j <= s.len(),
    ensures
        0 <= back_ws(s, j) <= j,
        back_ws(s, j) > 0 ==> !is_ws(s[back_ws(s, j) - 1]),
        forall|k: int| back_ws(s, j) <= k < j ==> is_ws(#[trigger] s[k]),
    decreases j,
{
    if 0 < j && is_ws(s[j - 1]) {
        lemma_back_ws(s, j - 1);
    }
}

/// Whitespace skipped from `i` onwards: `skip_ws(s, i)`.
pub fn skip_ws_from(s: &[char], i: usize) -> (r: usize)
    requires
        i <= s@.len(),
    ensures
        r == skip_ws(s@, i as int),
{
    let mut k = i;
    while k < s.len()
        invariant
            i <= k <= s@.len(),
            skip_ws(s@, k as int) == skip_ws(s@, i as int),
        decreases s.len() - k,
    {
        if !char_is_whitespace(s[k]) {
            return k;
        }
        k += 1;
    }
    k
}

/// Whitespace skipped backwards from `j`: `back_ws(s, j)`.
pub fn back_ws_from(s: &[char], j: usize) -> (r: usize)
    requires
        j <= s@.len(),
    ensures
        r == back_ws(s@, j as int),
{
    let mut k = j;
    while k > 0
        invariant
            k <= j <= s@.len(),
            back_ws(s@, k as int) == back_ws(s@, j as int),
        decreases k,
    {
        if !char_is_whitespace(s[k - 1]) {
            return k;
        }
        k -= 1;
    }
    k
}

/// `str::trim`, on characters.
pub fn trim_vec(s: &[char]) -> (r: Vec<char>)
    ensures
        r@ == trim(s@),
{
    let a = skip_ws_from(s, 0);
    proof {
        lemma_skip_ws(s@, 0);
    }
    let t = slice_of(s, a, s.len());
    let b = back_ws_from(t.as_slice(), t.len());
    proof {
        lemma_back_ws(t@, t@.len() as int);
    }
    slice_of(t.as_slice(), 0, b)
}

/// `str::trim_end`, on characters.
pub fn trim_end_vec(s: &[char]) -> (r: Vec<char>)
    ensures
        r@ == trim_end(s@),
{
    let b = back_ws_from(s, s.len());
    proof {
        lemma_back_ws(s@, s@.len() as int);
    }
    slice_of(s, 0, b)
}

/// `str::trim_start`, on characters.
pub fn trim_start_vec(s: &[char]) -> (r: Vec<char>)
    ensures
        r@ == trim_start(s@),
{
    let a = skip_ws_from(s, 0);
    proof {
        lemma_skip_ws(s@, 0);
    }
    slice_of(s, a, s.len())
}

// ---------------------------------------------------------------------------
// Searching.
// ---------------------------------------------------------------------------

/// `p` occurs in `s` starting at `i`.
pub open spec fn match_at(s: Seq<char>, p: Seq<char>, i: int) -> bool {
    0 <= i && i + p.len() <= s.len() && s.subrange(i, i + p.len()) == p
}

/// The first occurrence of `p` in `s` at or after `i`.
pub open spec fn find_from(s: Seq<char>, p: Seq<char>, i: int) -> Option<int>
    decreases s.len() + 1 - i,
{
    if 0 <= i && i + p.len() <= s.len() {
        if match_at(s, p, i) {
            Some(i)
        } else {
            find_from(s, p, i + 1)
        }
    } else {
        None
    }
}

pub proof fn lemma_find_from(s: Seq<char>, p: Seq<char>, i: int)
    requires
        0 <= i,
    ensures
        find_from(s, p, i) matches Some(k) ==> i <= k && match_at(s, p, k) && forall|j: int|
            i <= j < k ==> !match_at(s, p, j),
        find_from(s, p, i) is None ==> forall|j: int| i <= j ==> !match_at(s, p, j),
    decreases s.len() + 1 - i,
{
    if i + p.len() <= s.len() {
        if !match_at(s, p, i) {
            lemma_find_from(s, p, i + 1);
        }
    }
}

/// `s.starts_with(p)`.
pub open spec fn starts_with(s: Seq<char>, p: Seq<char>) -> bool {
    p.len() <= s.len() && s.subrange(0, p.len() as int) == p
}

/// `s.ends_with(p)`.
pub open spec fn ends_with(s: Seq<char>, p: Seq<char>) -> bool {
    p.len() <= s.len() && s.subrange(s.len() - p.len(), s.len() as int) == p
}

/// Whether `p` occurs in `s` at `i`.
pub fn matches_at(s: &[char], p: &[char], i: usize) -> (r: bool)
    ensures
        r == match_at(s@, p@, i as int),
{
    if i > s.len() || p.len() > s.len() - i {
        return false;
    }
    let mut k: usize = 0;
    while k < p.len()
        invariant
            i + p.len() <= s.len(),
            k <= p@.len(),
            forall|j: int| 0 <= j < k ==> s@[i + j] == p@[j],
        decreases p.len() - k,
    {
        assert(i + k < s@.len());
        if s[i + k] != p[k] {
            assert(s@.subrange(i as int, i + p@.len())[k as int] != p@[k as int]);
            return false;
        }
        k += 1;
    }
    assert(s@.subrange(i as int, i + p@.len()) =~= p@);
    true
}

/// The first occurrence of `p` in `s` at or after `from`.
pub fn find_at(s: &[char], p: &[char], from: usize) -> (r: Option<usize>)
    ensures
        r matches Some(k) ==> find_from(s@, p@, from as int) == Some(k as int),
        r is None ==> find_from(s@, p@, from as int) is None,
{
    if p.len() > s.len() || from > s.len() - p.len() {
        return None;
    }
    let last = s.len() - p.len();
    let mut i = from;
    loop
        invariant
            from <= i <= last,
            last + p@.len() == s@.len(),
            find_from(s@, p@, i as int) == find_from(s@, p@, from as int),
        decreases last - i,
    {
        if matches_at(s, p, i) {
            return Some(i);
        }
        if i == last {
            assert(find_from(s@, p@, i as int + 1) is None);
            return None;
        }
        i += 1;
    }
}

/// Whether `c` occurs in `s`.
pub fn has_char(s: &[char], c: char) -> (r: bool)
    ensures
        r == s@.contains(c),
{
    let mut i: usize = 0;
    while i < s.len()
        invariant
            i <= s@.len(),
            forall|j: int| 0 <= j < i ==> s@[j] != c,
        decreases s.len() - i,
    {
        if s[i] == c {
            return true;
        }
        i += 1;
    }
    false
}

/// Whether `p` is a prefix of `s`.
pub fn has_prefix(s: &[char], p: &[char]) -> (r: bool)
    ensures
        r == starts_with(s@, p@),
{
    let r = matches_at(s, p, 0);
    proof {
        if r {
            assert(s@.subrange(0, p@.len() as int) == p@);
        }
    }
    r
}

/// Whether `p` is a suffix of `s`.
pub fn has_suffix(s: &[char], p: &[char]) -> (r: bool)
    ensures
        r == ends_with(s@, p@),
{
    if p.len() > s.len() {
        return false;
    }
    matches_at(s, p, s.len() - p.len())
}

/// Equality of character sequences.
pub fn same_chars(a: &[char], b: &[char]) -> (r: bool)
    ensures
        r == (a@ == b@),
{
    if a.len() != b.len() {
        return false;
    }
    let r = matches_at(a, b, 0);
    assert(a@.subrange(0, b@.len() as int) =~= a@);
    r
}

// ---------------------------------------------------------------------------
// Lines.
// ---------------------------------------------------------------------------

/// Index of the first `\n` at or after `i`, or the end.
pub open spec fn next_nl(s: Seq<char>, i: int) -> int
    decreases s.len() - i,
{
    if 0 <= i < s.len() {
        if s[i] == '\n' {
            i
        } else {
            next_nl(s, i + 1)
        }
    } else {
        s.len() as int
    }
}

pub proof fn lemma_next_nl(s: Seq<char>, i: int)
    requires
        0 <= i <= s.len(),
    ensures
        i <= next_nl(s, i) <= s.len(),
        next_nl(s, i) < s.len() ==> s[next_nl(s, i)] == '\n',
        forall|k: int| i <= k < next_nl(s, i) ==> #[trigger] s[k] != '\n',
    decreases s.len() - i,
{
    if i < s.len() && s[i] != '\n' {
        lemma_next_nl(s, i + 1);
    }
}

/// A line without its `\r\n` ending: one carriage return before the newline
/// belongs to the line ending.
pub open spec fn strip_cr(l: Seq<char>) -> Seq<char> {
    if l.len() > 0 && l.last() == '\r' {
        l.drop_last()
    } else {
        l
    }
}

/// `str::lines`, starting at `i`: pieces ending at each `\n`, the newline
/// removed and a `\r` before it too; a last piece without a newline is kept
/// whole, and an empty tail is no line.
pub open spec fn lines_from(s: Seq<char>, i: int) -> Seq<Seq<char>>
    decreases s.len() + 1 - i,
{
    if 0 <= i < s.len() {
        proof {
            lemma_next_nl(s, i);
        }
        let j = next_nl(s, i);
        let line = if j < s.len() {
            strip_cr(s.subrange(i, j))
        } else {
            s.subrange(i, s.len() as int)
        };
        seq![line] + lines_from(s, j + 1)
    } else {
        Seq::empty()
    }
}

/// `str::lines`.
pub open spec fn lines(s: Seq<char>) -> Seq<Seq<char>> {
    lines_from(s, 0)
}

pub proof fn lemma_next_nl_shift(p: Seq<char>, q: Seq<char>, i: int)
    requires
        0 <= i <= q.len(),
    ensures
        next_nl(p + q, p.len() + i) == p.len() + next_nl(q, i),
    decreases q.len() - i,
{
    if i < q.len() {
        assert((p + q)[p.len() + i] == q[i]);
        if q[i] != '\n' {
            lemma_next_nl_shift(p, q, i + 1);
        }
    }
}

/// Lines of `q` are the lines of `p + q` that start after `p`.
pub proof fn lemma_lines_shift(p: Seq<char>, q: Seq<char>, i: int)
    requires
        0 <= i <= q.len(),
    ensures
        lines_from(p + q, p.len() + i) == lines_from(q, i),
    decreases q.len() - i,
{
    if i < q.len() {
        lemma_next_nl_shift(p, q, i);
        lemma_next_nl(q, i);
        let j = next_nl(q, i);
        let pq = p + q;
        assert(pq.len() == p.len() + q.len());
        lemma_next_nl(pq, p.len() + i);
        if j < q.len() {
            assert(pq.subrange(p.len() + i, p.len() + j) =~= q.subrange(i, j));
            lemma_lines_shift(p, q, j + 1);
            assert(lines_from(pq, p.len() + i) == seq![strip_cr(pq.subrange(p.len() + i, p.len() + j))] + lines_from(pq, p.len() + j + 1));
            assert(lines_from(q, i) == seq![strip_cr(q.subrange(i, j))] + lines_from(q, j + 1));
        } else {
            assert(pq.subrange(p.len() + i, pq.len() as int) =~= q.subrange(i, q.len() as int));
            assert(lines_from(pq, p.len() + i) == seq![pq.subrange(p.len() + i, pq.len() as int)] + lines_from(pq, pq.len() as int + 1));
            assert(lines_from(q, i) == seq![q.subrange(i, q.len() as int)] + lines_from(q, q.len() as int + 1));
        }
    }
}

/// A line ended by its newline, followed by more text: it is the first line.
pub proof fn lemma_lines_line(x: Seq<char>, q: Seq<char>)
    requires
        !x.contains('\n'),
        x.len() == 0 || x.last() != '\r',
    ensures
        lines(x.push('\n') + q) == seq![x] + lines(q),
{
    let a = x.push('\n');
    let s = a + q;
    assert forall|k: int| 0 <= k < x.len() implies s[k] != '\n' by {
        assert(s[k] == x[k]);
        if s[k] == '\n' {
            assert(x.contains('\n'));
        }
    }
    assert(s[x.len() as int] == '\n');
    lemma_next_nl_first(s, 0, x.len() as int);
    assert(s.subrange(0, x.len() as int) =~= x);
    lemma_lines_shift(a, q, 0);
    assert(a.len() + 0 == x.len() + 1);
}

/// `next_nl` finds the first newline.
pub proof fn lemma_next_nl_first(s: Seq<char>, i: int, m: int)
    requires
        0 <= i <= m < s.len(),
        s[m] == '\n',
        forall|k: int| i <= k < m ==> s[k] != '\n',
    ensures
        next_nl(s, i) == m,
    decreases m - i,
{
    if i < m {
        lemma_next_nl_first(s, i + 1, m);
    }
}

/// `find_from` finds the first match.
pub proof fn lemma_find_first(s: Seq<char>, p: Seq<char>, i: int, m: int)
    requires
        0 <= i <= m,
        match_at(s, p, m),
        forall|k: int| i <= k < m ==> !match_at(s, p, k),
    ensures
        find_from(s, p, i) == Some(m),
    decreases m - i,
{
    if i < m {
        lemma_find_first(s, p, i + 1, m);
    }
}

/// A text that starts and ends with something other than whitespace is its
/// own trim.
pub proof fn lemma_trim_noop(s: Seq<char>)
    requires
        s.len() > 0,
        !is_ws(s[0]),
        !is_ws(s.last()),
    ensures
        trim(s) == s,
        trim_end(s) == s,
        trim_start(s) == s,
{
    assert(skip_ws(s, 0) == 0);
    assert(s.subrange(0, s.len() as int) =~= s);
    assert(back_ws(s, s.len() as int) == s.len());
}

/// The index of the next `\n` at or after `i`, or the end.
pub fn next_newline(s: &[char], i: usize) -> (r: usize)
    requires
        i <= s@.len(),
    ensures
        r == next_nl(s@, i as int),
{
    let mut k = i;
    while k < s.len()
        invariant
            i <= k <= s@.len(),
            next_nl(s@, k as int) == next_nl(s@, i as int),
        decreases s.len() - k,
    {
        if s[k] == '\n' {
            return k;
        }
        k += 1;
    }
    k
}

/// The lines of `s`, as `str::lines` yields them.
pub fn lines_of(s: &[char]) -> (r: Vec<Vec<char>>)
    ensures
        r@.len() == lines(s@).len(),
        forall|k: int| 0 <= k < r@.len() ==> (#[trigger] r@[k])@ == lines(s@)[k],
{
    let mut out: Vec<Vec<char>> = Vec::new();
    let mut i: usize = 0;
    let ghost mut done: Seq<Seq<char>> = Seq::empty();
    while i < s.len()
        invariant
            i <= s@.len(),
            done + lines_from(s@, i as int) == lines(s@),
            out@.len() == done.len(),
            forall|k: int| 0 <= k < out@.len() ==> (#[trigger] out@[k])@ == done[k],
        decreases s.len() - i,
    {
        let j = next_newline(s, i);
        proof {
            lemma_next_nl(s@, i as int);
        }
        let mut line = slice_of(s, i, j);
        if j < s.len() && line.len() > 0 && line[line.len() - 1] == '\r' {
            line.pop();
        }
        let ghost l = if j < s@.len() {
            strip_cr(s@.subrange(i as int, j as int))
        } else {
            s@.subrange(i as int, s@.len() as int)
        };
        assert(line@ == l);
        proof {
            assert(lines_from(s@, i as int) == seq![l] + lines_from(s@, j + 1));
            assert(done + lines_from(s@, i as int) == done.push(l) + lines_from(s@, j + 1));
            done = done.push(l);
        }
        out.push(line);
        if j == s.len() {
            i = j;
        } else {
            i = j + 1;
        }
    }
    assert(done == lines(s@));
    out
}

// ---------------------------------------------------------------------------
// Words.
// ---------------------------------------------------------------------------

/// End of the run of non-whitespace starting at `i`.
pub open spec fn word_end(s: Seq<char>, i: int) -> int
    decreases s.len() - i,
{
    if 0 <= i < s.len() && !is_ws(s[i]) {
        word_end(s, i + 1)
    } else {
        i
    }
}

pub proof fn lemma_word_end(s: Seq<char>, i: int)
    requires
        0 <= i <= s.len(),
    ensures
        i <= word_end(s, i) <= s.len(),
        word_end(s, i) < s.len() ==> is_ws(s[word_end(s, i)]),
        forall|k: int| i <= k < word_end(s, i) ==> !is_ws(#[trigger] s[k]),
    decreases s.len() - i,
{
    if i < s.len() && !is_ws(s[i]) {
        lemma_word_end(s, i + 1);
    }
}

/// `str::split_whitespace` from `i`: the maximal runs of non-whitespace.
pub open spec fn words_from(s: Seq<char>, i: int) -> Seq<Seq<char>>
    decreases s.len() - i,
{
    if 0 <= i <= s.len() {
        let a = skip_ws(s, i);
        proof {
            lemma_skip_ws(s, i);
        }
        if a < s.len() {
            let b = word_end(s, a);
            proof {
                lemma_word_end(s, a);
            }
            seq![s.subrange(a, b)] + words_from(s, b)
        } else {
            Seq::empty()
        }
    } else {
        Seq::empty()
    }
}

/// `str::split_whitespace`.
pub open spec fn words(s: Seq<char>) -> Seq<Seq<char>> {
    words_from(s, 0)
}

/// The whitespace-separated words of `s`.
pub fn words_of(s: &[char]) -> (r: Vec<Vec<char>>)
    ensures
        r@.len() == words(s@).len(),
        forall|k: int| 0 <= k < r@.len() ==> (#[trigger] r@[k])@ == words(s@)[k],
{
    let mut out: Vec<Vec<char>> = Vec::new();
    let mut i: usize = 0;
    let ghost mut done: Seq<Seq<char>> = Seq::empty();
    loop
        invariant
            i <= s@.len(),
            done + words_from(s@, i as int) == words(s@),
            out@.len() == done.len(),
            forall|k: int| 0 <= k < out@.len() ==> (#[trigger] out@[k])@ == done[k],
        decreases s.len() - i,
    {
        let a = skip_ws_from(s, i);
        proof {
            lemma_skip_ws(s@, i as int);
        }
        if a == s.len() {
            assert(words_from(s@, i as int) == Seq::<Seq<char>>::empty());
            assert(done == words(s@));
            return out;
        }
        let mut b = a;
        while b < s.len() && !char_is_whitespace(s[b])
            invariant
                a <= b <= s@.len(),
                word_end(s@, b as int) == word_end(s@, a as int),
            decreases s.len() - b,
        {
            b += 1;
        }
        proof {
            lemma_word_end(s@, a as int);
        }
        let w = slice_of(s, a, b);
        proof {
            assert(words_from(s@, i as int) == seq![w@] + words_from(s@, b as int));
            assert(done + words_from(s@, i as int) == done.push(w@) + words_from(s@, b as int));
            done = done.push(w@);
        }
        out.push(w);
        i = b;
    }
}

// ---------------------------------------------------------------------------
// Sequences without repeats.
// ---------------------------------------------------------------------------

/// `s` with every repeat of an earlier element removed, first occurrences in
/// order.
pub open spec fn dedup<T>(s: Seq<T>) -> Seq<T>
    decreases s.len(),
{
    if s.len() == 0 {
        s
    } else {
        let d = dedup(s.drop_last());
        if d.contains(s.last()) {
            d
        } else {
            d.push(s.last())
        }
    }
}

pub proof fn lemma_dedup<T>(s: Seq<T>)
    ensures
        dedup(s).no_duplicates(),
        forall|x: T| dedup(s).contains(x) <==> s.contains(x),
    decreases s.len(),
{
    if s.len() > 0 {
        lemma_dedup(s.drop_last());
        let d = dedup(s.drop_last());
        assert forall|x: T| s.contains(x) <==> (s.drop_last().contains(x) || x == s.last()) by {
            if s.contains(x) {
                let k = choose|k: int| 0 <= k < s.len() && s[k] == x;
                if k < s.len() - 1 {
                    assert(s.drop_last()[k] == x);
                }
            }
            if x == s.last() {
                assert(s[s.len() - 1] == x);
            }
            if s.drop_last().contains(x) {
                let k = choose|k: int| 0 <= k < s.len() - 1 && s.drop_last()[k] == x;
                assert(s[k] == x);
            }
        }
        if !d.contains(s.last()) {
            assert forall|x: T| d.push(s.last()).contains(x) <==> (d.contains(x) || x == s.last()) by {
                if d.push(s.last()).contains(x) {
                    let k = choose|k: int| 0 <= k < d.len() + 1 && d.push(s.last())[k] == x;
                    if k < d.len() {
                        assert(d[k] == x);
                    }
                }
                if d.contains(x) {
                    let k = choose|k: int| 0 <= k < d.len() && d[k] == x;
                    assert(d.push(s.last())[k] == x);
                }
                if x == s.last() {
                    assert(d.push(s.last())[d.len() as int] == x);
                }
            }
        }
    }
}

/// Whether `v` is among `names`, compared as text.
pub fn contains_text(names: &Vec<Vec<char>>, v: &[char]) -> (r: bool)
    ensures
        r == exists|k: int| 0 <= k < names@.len() && (#[trigger] names@[k])@ == v@,
{
    let mut i: usize = 0;
    while i < names.len()
        invariant
            i <= names@.len(),
            forall|k: int| 0 <= k < i ==> (#[trigger] names@[k])@ != v@,
        decreases names.len() - i,
    {
        if same_chars(names[i].as_slice(), v) {
            return true;
        }
        i += 1;
    }
    false
}

/// The views of a vector of character vectors.
pub open spec fn views(v: Seq<Vec<char>>) -> Seq<Seq<char>> {
    Seq::new(v.len(), |k: int| v[k]@)
}

/// Appends `x` unless it is already present, keeping `out` the `dedup` of
/// what has been offered so far.
pub(crate) fn push_new(out: &mut Vec<Vec<char>>, x: Vec<char>, Ghost(offered): Ghost<Seq<Seq<char>>>)
    requires
        views(old(out)@) == dedup(offered),
    ensures
        views(final(out)@) == dedup(offered.push(x@)),
{
    let ghost xs = offered.push(x@);
    assert(xs.drop_last() == offered);
    let present = contains_text(out, x.as_slice());
    proof {
        let d = dedup(offered);
        if present {
            let k = choose|k: int| 0 <= k < out@.len() && (#[trigger] out@[k])@ == x@;
            assert(d[k] == x@);
        } else {
            assert forall|k: int| 0 <= k < d.len() implies d[k] != x@ by {
                assert(out@[k]@ == d[k]);
            }
        }
    }
    if !present {
        let ghost before = out@;
        out.push(x);
        assert(views(out@) =~= views(before).push(xs.last()));
    }
}

} // verus!
