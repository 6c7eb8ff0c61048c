//! `#tags` written inline in a note.
//!
//! `#` is also ordinary punctuation: a URL fragment, a markdown heading, an
//! issue number and a CSS colour all contain one. The rules are deliberately
//! narrow: a tag starts a word, begins with a letter, and loses its trailing
//! punctuation.
use vstd::prelude::*;

use crate::text::{
    all_ascii, ascii_lower_char, char_is_alphabetic, char_is_alphanumeric, chars_of, dedup, is_alnum, is_alpha,
    is_ascii_char, lemma_dedup, lower_str, push_new, slice_of, str_to_lowercase, string_of, views,
};

verus! {

/// `u8::is_ascii_whitespace`: space, tab, line feed, form feed, carriage
/// return. A byte before a `#` is one of these exactly when the character
/// before it is.
pub open spec fn ascii_space(c: char) -> bool {
    c == ' ' || c == '\t' || c == '\n' || c == '\x0C' || c == '\r'
}

/// Letters, digits, and the three separators people use in tags.
pub open spec fn tag_char(c: char) -> bool {
    is_alnum(c) || c == '-' || c == '_' || c == '/'
}

/// A separator, which trailing a tag belongs to the sentence instead.
pub open spec fn separator(c: char) -> bool {
    c == '-' || c == '_' || c == '/'
}

/// End of the run of tag characters starting at `i`.
pub open spec fn tag_end(t: Seq<char>, i: int) -> int
    decreases t.len() - i,
{
    if 0 <= i < t.len() && tag_char(t[i]) {
        tag_end(t, i + 1)
    } else {
        i
    }
}

/// `n` without trailing separators (`trim_end_matches(['-', '_', '/'])`).
pub open spec fn trim_separators(n: Seq<char>) -> Seq<char>
    decreases n.len(),
{
    if n.len() > 0 && separator(n.last()) {
        trim_separators(n.drop_last())
    } else {
        n
    }
}

/// The tag the `#` at `i` starts, if it starts one.
pub open spec fn tag_at(t: Seq<char>, i: int) -> Option<Seq<char>> {
    if !(0 <= i < t.len()) || t[i] != '#' {
        None
    } else if i > 0 && !ascii_space(t[i - 1]) {
        None
    } else {
        let name = t.subrange(i + 1, tag_end(t, i + 1));
        if name.len() == 0 || !is_alpha(name[0]) {
            None
        } else {
            let n = lower_str(trim_separators(name));
            if n.len() == 0 {
                None
            } else {
                Some(n)
            }
        }
    }
}

/// The tags started at or after `i`, repeats included.
pub open spec fn tags_from(t: Seq<char>, i: int) -> Seq<Seq<char>>
    decreases t.len() - i,
{
    if 0 <= i < t.len() {
        let rest = tags_from(t, i + 1);
        match tag_at(t, i) {
            Some(n) => seq![n] + rest,
            None => rest,
        }
    } else {
        Seq::empty()
    }
}

/// Every `#tag` in `t`, lower-cased, in order and without duplicates.
pub open spec fn tags_spec(t: Seq<char>) -> Seq<Seq<char>> {
    dedup(tags_from(t, 0))
}

proof fn lemma_tag_end(t: Seq<char>, i: int)
    requires
        0 <= i <= t.len(),
    ensures
        i <= tag_end(t, i) <= t.len(),
    decreases t.len() - i,
{
    if i < t.len() && tag_char(t[i]) {
        lemma_tag_end(t, i + 1);
    }
}

fn trim_separators_vec(n: &[char]) -> (r: Vec<char>)
    ensures
        r@ == trim_separators(n@),
{
    let mut k = n.len();
    assert(n@.subrange(0, n@.len() as int) =~= n@);
    while k > 0 && (n[k - 1] == '-' || n[k - 1] == '_' || n[k - 1] == '/')
        invariant
            k <= n@.len(),
            trim_separators(n@.subrange(0, k as int)) == trim_separators(n@),
        decreases k,
    {
        assert(n@.subrange(0, k as int).drop_last() =~= n@.subrange(0, k - 1));
        k -= 1;
    }
    assert(n@.subrange(0, n@.len() as int) =~= n@);
    slice_of(n, 0, k)
}

/// The tag the `#` at `i` starts, as `tag_at` says.
fn tag_at_exec(t: &[char], i: usize) -> (r: Option<Vec<char>>)
    requires
        i < t@.len(),
    ensures
        r matches Some(n) ==> tag_at(t@, i as int) == Some(n@),
        r is None ==> tag_at(t@, i as int) is None,
{
    if t[i] != '#' {
        return None;
    }
    if i > 0 {
        let c = t[i - 1];
        if !(c == ' ' || c == '\t' || c == '\n' || c == '\x0C' || c == '\r') {
            return None;
        }
    }
    let mut e = i + 1;
    while e < t.len() && (char_is_alphanumeric(t[e]) || t[e] == '-' || t[e] == '_' || t[e] == '/')
        invariant
            i + 1 <= e <= t@.len(),
            tag_end(t@, e as int) == tag_end(t@, i + 1),
        decreases t.len() - e,
    {
        e += 1;
    }
    let name = slice_of(t, i + 1, e);
    if name.len() == 0 || !char_is_alphabetic(name[0]) {
        return None;
    }
    let trimmed = trim_separators_vec(name.as_slice());
    let s = string_of(trimmed.as_slice());
    let lowered = str_to_lowercase(s.as_str());
    let n = chars_of(lowered.as_str());
    if n.len() == 0 {
        None
    } else {
        Some(n)
    }
}

/// Every `#tag` in `text`, in order and without duplicates.
///
/// Tags are compared and stored in lower case, so `#Kafka` and `#kafka` are
/// one tag. The note keeps whatever the user typed.
pub fn tags(text: &str) -> (r: Vec<String>)
    ensures
        r@.len() == tags_spec(text@).len(),
        forall|k: int| 0 <= k < r@.len() ==> (#[trigger] r@[k])@ == tags_spec(text@)[k],
{
    let t = chars_of(text);
    let mut out: Vec<Vec<char>> = Vec::new();
    let ghost mut offered: Seq<Seq<char>> = Seq::empty();
    assert(views(out@) =~= dedup(offered));
    let mut i: usize = 0;
    assert(offered + tags_from(t@, 0) =~= tags_from(t@, 0));
    while i < t.len()
        invariant
            i <= t@.len(),
            t@ == text@,
            views(out@) == dedup(offered),
            offered + tags_from(t@, i as int) == tags_from(t@, 0),
        decreases t.len() - i,
    {
        match tag_at_exec(t.as_slice(), i) {
            Some(n) => {
                proof {
                    assert(offered + tags_from(t@, i as int) =~= offered.push(n@) + tags_from(t@, i + 1));
                }
                push_new(&mut out, n, Ghost(offered));
                proof {
                    offered = offered.push(n@);
                }
            },
            None => {},
        }
        i += 1;
    }
    assert(offered + Seq::<Seq<char>>::empty() =~= offered);
    let mut r: Vec<String> = Vec::new();
    let mut j: usize = 0;
    while j < out.len()
        invariant
            j <= out@.len(),
            views(out@) == tags_spec(text@),
            r@.len() == j,
            forall|k: int| 0 <= k < j ==> (#[trigger] r@[k])@ == out@[k]@,
        decreases out.len() - j,
    {
        r.push(string_of(out[j].as_slice()));
        j += 1;
    }
    assert forall|k: int| 0 <= k < r@.len() implies (#[trigger] r@[k])@ == tags_spec(text@)[k] by {
        assert(views(out@)[k] == out@[k]@);
    }
    r
}

/// A tag is listed once however often and in whatever case it is written.
pub proof fn law_tags_distinct(text: Seq<char>)
    ensures
        tags_spec(text).no_duplicates(),
{
    lemma_dedup(tags_from(text, 0));
}

/// The `#` at `i` starts the tag `n`: it starts a word, the run of tag
/// characters after it begins with a letter, and `n` is that run without
/// its trailing separators, lower-cased, and not empty.
pub open spec fn tag_source(t: Seq<char>, i: int, n: Seq<char>) -> bool {
    let name = t.subrange(i + 1, tag_end(t, i + 1));
    &&& 0 <= i < t.len()
    &&& t[i] == '#'
    &&& i == 0 || ascii_space(t[i - 1])
    &&& name.len() > 0
    &&& is_alpha(name[0])
    &&& n == lower_str(trim_separators(name))
    &&& n.len() > 0
}

/// Some `#` in `t` starts the tag `n`.
pub open spec fn tagged(t: Seq<char>, n: Seq<char>) -> bool {
    exists|i: int| #[trigger] tag_source(t, i, n)
}

proof fn lemma_tags_from_source(t: Seq<char>, i: int)
    ensures
        forall|k: int|
            0 <= k < tags_from(t, i).len() ==> tagged(t, #[trigger] tags_from(t, i)[k]),
    decreases t.len() - i,
{
    if 0 <= i < t.len() {
        lemma_tags_from_source(t, i + 1);
        lemma_tag_end(t, i + 1);
        let rest = tags_from(t, i + 1);
        let all = tags_from(t, i);
        match tag_at(t, i) {
            Some(n) => {
                assert(tag_source(t, i, n));
                assert(all == seq![n] + rest);
                assert forall|k: int| 0 <= k < all.len() implies tagged(t, #[trigger] all[k]) by {
                    if k == 0 {
                        assert(all[k] == n);
                        assert(tag_source(t, i, all[k]));
                    } else {
                        assert(all[k] == rest[k - 1]);
                        assert(tagged(t, rest[k - 1]));
                    }
                }
            },
            None => {
                assert(all == rest);
            },
        }
    }
}

/// A name that does not start with a separator keeps its first character
/// and more when its trailing separators go, and then ends in none.
proof fn lemma_trim_separators(n: Seq<char>)
    requires
        n.len() > 0,
        !separator(n[0]),
    ensures
        ({
            let m = trim_separators(n);
            &&& 0 < m.len() <= n.len()
            &&& m == n.subrange(0, m.len() as int)
            &&& !separator(m.last())
        }),
    decreases n.len(),
{
    if separator(n.last()) {
        assert(n.len() > 1);
        assert(n.drop_last()[0] == n[0]);
        lemma_trim_separators(n.drop_last());
        let m = trim_separators(n.drop_last());
        assert(m =~= n.subrange(0, m.len() as int));
    } else {
        assert(n.subrange(0, n.len() as int) =~= n);
    }
}

/// Every tag is listed once and comes from a `#` that starts a word, followed
/// by tag characters beginning with a letter, cut of its trailing separators
/// and lower-cased. In ASCII text, every tag moreover starts with a letter
/// and ends in no separator.
pub proof fn law_tags_shape(text: Seq<char>)
    ensures
        tags_spec(text).no_duplicates(),
        forall|k: int| 0 <= k < tags_spec(text).len() ==> tagged(text, #[trigger] tags_spec(text)[k]),
        all_ascii(text) ==> forall|k: int|
            0 <= k < tags_spec(text).len() ==> is_alpha((#[trigger] tags_spec(text)[k])[0]) && !separator(
                tags_spec(text)[k].last(),
            ),
{
    law_tags_distinct(text);
    lemma_dedup(tags_from(text, 0));
    lemma_tags_from_source(text, 0);
    assert forall|k: int| 0 <= k < tags_spec(text).len() implies tagged(text, #[trigger] tags_spec(text)[k]) by {
        let x = tags_spec(text)[k];
        assert(tags_spec(text).contains(x));
        assert(tags_from(text, 0).contains(x));
        let j = choose|j: int| 0 <= j < tags_from(text, 0).len() && tags_from(text, 0)[j] == x;
        assert(tagged(text, tags_from(text, 0)[j]));
    }
    if all_ascii(text) {
        assert forall|k: int| 0 <= k < tags_spec(text).len() implies is_alpha(
            (#[trigger] tags_spec(text)[k])[0],
        ) && !separator(tags_spec(text)[k].last()) by {
            let x = tags_spec(text)[k];
            let i = choose|i: int| tag_source(text, i, x);
            lemma_tag_end(text, i + 1);
            let name = text.subrange(i + 1, tag_end(text, i + 1));
            assert(is_ascii_char(text[i + 1]));
            assert(name[0] == text[i + 1]);
            lemma_trim_separators(name);
            let m = trim_separators(name);
            assert(all_ascii(m)) by {
                assert forall|q: int| 0 <= q < m.len() implies is_ascii_char(#[trigger] m[q]) by {
                    assert(m[q] == name[q]);
                    assert(name[q] == text[i + 1 + q]);
                }
            }
            assert(x == Seq::new(m.len(), |q: int| ascii_lower_char(m[q])));
            assert(m[0] == name[0]);
            assert(x[0] == ascii_lower_char(m[0]));
            assert(x.last() == ascii_lower_char(m.last()));
        }
    }
}

proof fn lemma_tags_from_has(t: Seq<char>, j: int, i: int, n: Seq<char>)
    requires
        0 <= j <= i < t.len(),
        tag_at(t, i) == Some(n),
    ensures
        tags_from(t, j).contains(n),
    decreases i - j,
{
    let all = tags_from(t, j);
    if j == i {
        assert(all == seq![n] + tags_from(t, i + 1));
        assert(all[0] == n);
    } else {
        lemma_tags_from_has(t, j + 1, i, n);
        let rest = tags_from(t, j + 1);
        let k = choose|k: int| 0 <= k < rest.len() && rest[k] == n;
        match tag_at(t, j) {
            Some(m) => {
                assert(all == seq![m] + rest);
                assert(all[k + 1] == n);
            },
            None => {
                assert(all == rest);
                assert(all[k] == n);
            },
        }
    }
}

/// Every tag written in the text is listed: a `#` at the start of the text
/// or after any ASCII whitespace (a space, a tab, a line break, a form feed
/// or a carriage return), followed by tag characters that begin with a
/// letter, contributes the run without its trailing separators,
/// lower-cased, whenever that is not empty.
pub proof fn law_tags_complete(text: Seq<char>, i: int)
    requires
        0 <= i < text.len(),
        text[i] == '#',
        i == 0 || text[i - 1] == ' ' || text[i - 1] == '\t' || text[i - 1] == '\n' || text[i - 1] == '\x0C'
            || text[i - 1] == '\r',
        text.subrange(i + 1, tag_end(text, i + 1)).len() > 0,
        is_alpha(text.subrange(i + 1, tag_end(text, i + 1))[0]),
        lower_str(trim_separators(text.subrange(i + 1, tag_end(text, i + 1)))).len() > 0,
    ensures
        tags_spec(text).contains(lower_str(trim_separators(text.subrange(i + 1, tag_end(text, i + 1))))),
{
    let n = lower_str(trim_separators(text.subrange(i + 1, tag_end(text, i + 1))));
    assert(tag_at(text, i) == Some(n));
    lemma_tags_from_has(text, 0, i, n);
    lemma_dedup(tags_from(text, 0));
}

} // verus!
