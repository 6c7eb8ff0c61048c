//! One captured entry: frontmatter with its id and timestamps, then the text
//! as typed.
//!
//! Notes are append-only by design: `id` is assigned once and never changes,
//! and nothing in the library rewrites an existing note. `modified` records
//! edits made outside the app, in a text editor.
use vstd::prelude::*;
use crate::frontmatter::{
    clean_fields, clean_key, clean_value, distinct_keys, fields_get, fields_set, find_key,
    lemma_find_key, law_split_render, render_spec, split_spec, Fields, Frontmatter,
};
use crate::links::{law_references_distinct, links, links_spec, supersedes, supersedes_spec, targets, targets_spec};
use crate::slug::{slug_spec, slugify};
use crate::view::{embedded_names, embeds_of};
use crate::stamp::{
    exact_in_rfc3339, format_stamp, formatted, now_local, parse_time, rfc3339, rfc3339_parsed,
    rfc3339_text, same_instant, truncate, valid_stamp, Stamp, FILE_MINUTE,
};
use crate::text::{
    back_ws, back_ws_from, chars_of, is_ws, lemma_back_ws, lemma_next_nl, lemma_next_nl_first,
    lemma_skip_ws, next_newline, next_nl, push_all, push_new, push_str, same_chars, skip_ws,
    skip_ws_from, slice_of, string_of, trim, trim_end, trim_end_vec, trim_start, trim_vec, dedup,
    views,
};

verus! {

// ---------------------------------------------------------------------------
// The text of a note.
// ---------------------------------------------------------------------------

/// The lines of `s` from index `i` on, each without trailing whitespace (a
/// `\r` before the newline goes with it), as `str::lines` followed by
/// `str::trim_end` yields them.
pub open spec fn trimmed_lines_from(s: Seq<char>, i: int) -> Seq<Seq<char>>
    decreases s.len() + 1 - i,
{
    if 0 <= i < s.len() {
        proof {
            lemma_next_nl(s, i);
        }
        let j = next_nl(s, i);
        seq![trim_end(s.subrange(i, j))] + trimmed_lines_from(s, j + 1)
    } else {
        Seq::empty()
    }
}

/// Lines joined with `\n` between them.
pub open spec fn join_lines(ls: Seq<Seq<char>>) -> Seq<char>
    decreases ls.len(),
{
    if ls.len() == 0 {
        Seq::empty()
    } else if ls.len() == 1 {
        ls[0]
    } else {
        join_lines(ls.drop_last()) + seq!['\n'] + ls.last()
    }
}

/// Editor text as a note keeps it: trailing whitespace cut from every line,
/// and the whole trimmed at both ends.
pub open spec fn normalized(s: Seq<char>) -> Seq<char> {
    trim(join_lines(trimmed_lines_from(s, 0)))
}

/// The first line of `s`, from `i` on, with anything but whitespace in it,
/// trimmed; or nothing.
pub open spec fn title_from(s: Seq<char>, i: int) -> Seq<char>
    decreases s.len() + 1 - i,
{
    if 0 <= i < s.len() {
        proof {
            lemma_next_nl(s, i);
        }
        let j = next_nl(s, i);
        let t = trim(s.subrange(i, j));
        if t.len() > 0 {
            t
        } else {
            title_from(s, j + 1)
        }
    } else {
        Seq::empty()
    }
}

/// A note's title: its first non-empty line, trimmed.
pub open spec fn title_of(body: Seq<char>) -> Seq<char> {
    title_from(body, 0)
}

/// First index at or after `i` that is not a newline, or the end.
pub open spec fn skip_newlines(s: Seq<char>, i: int) -> int
    decreases s.len() - i,
{
    if 0 <= i < s.len() && s[i] == '\n' {
        skip_newlines(s, i + 1)
    } else {
        i
    }
}

/// What follows the first line: after the first newline, with the newlines
/// that open it dropped. Nothing when there is no newline.
pub open spec fn content_of(body: Seq<char>) -> Seq<char> {
    let p = next_nl(body, 0);
    if p < body.len() {
        body.subrange(skip_newlines(body, p + 1), body.len() as int)
    } else {
        Seq::empty()
    }
}

proof fn lemma_skip_newlines(s: Seq<char>, i: int)
    requires
        0 <= i <= s.len(),
    ensures
        i <= skip_newlines(s, i) <= s.len(),
        forall|k: int| i <= k < skip_newlines(s, i) ==> s[k] == '\n',
        skip_newlines(s, i) < s.len() ==> s[skip_newlines(s, i)] != '\n',
    decreases s.len() - i,
{
    if i < s.len() && s[i] == '\n' {
        lemma_skip_newlines(s, i + 1);
    }
}

/// A note's content is what follows its first line: where the first line
/// break is at `p`, the body is its first line, that break, a run of further
/// line breaks, and then the content, which does not start with a line
/// break. The index where the content starts is returned.
pub proof fn law_content_follows_first_line(body: Seq<char>, p: int) -> (q: int)
    requires
        0 <= p < body.len(),
        body[p] == '\n',
        forall|k: int| 0 <= k < p ==> body[k] != '\n',
    ensures
        p < q <= body.len(),
        forall|k: int| p <= k < q ==> body[k] == '\n',
        q < body.len() ==> body[q] != '\n',
        content_of(body) == body.subrange(q, body.len() as int),
        body == body.subrange(0, p) + body.subrange(p, q) + content_of(body),
{
    lemma_next_nl_first(body, 0, p);
    lemma_skip_newlines(body, p + 1);
    let q = skip_newlines(body, p + 1);
    assert(body =~= body.subrange(0, p) + body.subrange(p, q) + body.subrange(q, body.len() as int));
    q
}

/// A body without a line break is all title, and has no content.
pub proof fn law_content_of_one_line(body: Seq<char>)
    requires
        forall|k: int| 0 <= k < body.len() ==> body[k] != '\n',
    ensures
        content_of(body) == Seq::<char>::empty(),
{
    lemma_next_nl(body, 0);
    if next_nl(body, 0) < body.len() {
        assert(body[next_nl(body, 0)] == '\n');
    }
}

// ---------------------------------------------------------------------------
// Facts about normalizing.
// ---------------------------------------------------------------------------

proof fn lemma_trimmed_push_newline(x: Seq<char>, i: int)
    requires
        0 <= i <= x.len(),
    ensures
        trimmed_lines_from(x.push('\n'), i) == trimmed_lines_from(x, i) + if i == x.len() || x.last()
            == '\n' {
            seq![Seq::<char>::empty()]
        } else {
            Seq::<Seq<char>>::empty()
        },
    decreases x.len() - i,
{
    let x2 = x.push('\n');
    lemma_next_nl(x, i);
    if i == x.len() {
        assert(x2[i] == '\n');
        assert(next_nl(x2, i) == i);
        assert(x2.subrange(i, i) =~= Seq::<char>::empty());
        assert(trim_end(Seq::<char>::empty()) =~= Seq::<char>::empty());
        assert(trimmed_lines_from(x2, i + 1) =~= Seq::<Seq<char>>::empty());
        assert(trimmed_lines_from(x, i) =~= Seq::<Seq<char>>::empty());
        assert(trimmed_lines_from(x2, i) =~= seq![Seq::<char>::empty()]);
    } else {
        let j = next_nl(x, i);
        assert forall|k: int| i <= k < j implies x2[k] != '\n' by {
            assert(x2[k] == x[k]);
        }
        if j < x.len() {
            assert(x2[j] == x[j]);
        } else {
            assert(x2[j] == '\n');
        }
        lemma_next_nl_first(x2, i, j);
        assert(x2.subrange(i, j) =~= x.subrange(i, j));
        if j < x.len() {
            lemma_trimmed_push_newline(x, j + 1);
            assert(trimmed_lines_from(x2, i) =~= seq![trim_end(x.subrange(i, j))]
                + trimmed_lines_from(x2, j + 1));
            assert(trimmed_lines_from(x, i) =~= seq![trim_end(x.subrange(i, j))]
                + trimmed_lines_from(x, j + 1));
            if j + 1 == x.len() {
                assert(x.last() == '\n');
            }
        } else {
            assert(x[x.len() - 1] != '\n');
            assert(trimmed_lines_from(x2, j + 1) =~= Seq::<Seq<char>>::empty());
            assert(trimmed_lines_from(x, j + 1) =~= Seq::<Seq<char>>::empty());
            assert(trimmed_lines_from(x2, i) =~= seq![trim_end(x.subrange(i, j))]);
            assert(trimmed_lines_from(x, i) =~= seq![trim_end(x.subrange(i, j))]);
        }
    }
}

proof fn lemma_skip_ws_push(y: Seq<char>, c: char, i: int)
    requires
        0 <= i <= y.len(),
        is_ws(c),
    ensures
        skip_ws(y.push(c), i) == if skip_ws(y, i) < y.len() {
            skip_ws(y, i)
        } else {
            y.len() as int + 1
        },
    decreases y.len() - i,
{
    let s = y.push(c);
    if i < y.len() {
        assert(s[i] == y[i]);
        if is_ws(y[i]) {
            lemma_skip_ws_push(y, c, i + 1);
        }
    } else {
        assert(s[i] == c);
        assert(skip_ws(s, i + 1) == i + 1);
    }
}

proof fn lemma_back_ws_push(y: Seq<char>, c: char, j: int)
    requires
        0 <= j <= y.len(),
    ensures
        back_ws(y.push(c), j) == back_ws(y, j),
    decreases j,
{
    if j > 0 {
        assert(y.push(c)[j - 1] == y[j - 1]);
        lemma_back_ws_push(y, c, j - 1);
    }
}

/// Whitespace after the end changes nothing that `trim` keeps.
proof fn lemma_trim_push_ws(y: Seq<char>, c: char)
    requires
        is_ws(c),
    ensures
        trim(y.push(c)) == trim(y),
{
    let s = y.push(c);
    lemma_skip_ws_push(y, c, 0);
    lemma_skip_ws(y, 0);
    let k = skip_ws(y, 0);
    if k < y.len() {
        let z = y.subrange(k, y.len() as int);
        assert(trim_start(s) =~= z.push(c));
        assert(trim_start(y) =~= z);
        assert(z.push(c)[z.len() as int] == c);
        assert(back_ws(z.push(c), z.len() as int + 1) == back_ws(z.push(c), z.len() as int));
        lemma_back_ws_push(z, c, z.len() as int);
        lemma_back_ws(z, z.len() as int);
        assert(trim(s) =~= trim(y));
    } else {
        assert(trim_start(s) =~= Seq::<char>::empty());
        assert(trim_start(y) =~= Seq::<char>::empty());
    }
}

/// A trailing newline makes no difference to a normalized note.
pub proof fn lemma_normalize_push_newline(x: Seq<char>)
    ensures
        normalized(x.push('\n')) == normalized(x),
{
    lemma_trimmed_push_newline(x, 0);
    let ls = trimmed_lines_from(x, 0);
    if x.len() == 0 || x.last() == '\n' {
        let ls2 = ls + seq![Seq::<char>::empty()];
        assert(trimmed_lines_from(x.push('\n'), 0) == ls2);
        if ls.len() == 0 {
            assert(ls2 =~= seq![Seq::<char>::empty()]);
            assert(join_lines(ls2) =~= Seq::<char>::empty());
            assert(join_lines(ls) =~= Seq::<char>::empty());
        } else {
            assert(ls2.drop_last() =~= ls);
            assert(join_lines(ls2) =~= join_lines(ls).push('\n'));
            lemma_trim_push_ws(join_lines(ls), '\n');
        }
    } else {
        assert(trimmed_lines_from(x.push('\n'), 0) =~= ls);
    }
}

/// No line of `y` carries trailing whitespace: every newline after the first
/// character follows another newline or a character that is not whitespace.
pub open spec fn no_trailing_ws(y: Seq<char>) -> bool {
    forall|p: int| 0 < p < y.len() && #[trigger] y[p] == '\n' ==> (y[p - 1] == '\n' || !is_ws(y[p - 1]))
}

/// Text in the form `normalized` gives: no trailing whitespace on any line,
/// and none at either end.
pub open spec fn is_normal(y: Seq<char>) -> bool {
    &&& no_trailing_ws(y)
    &&& (y.len() == 0 || (!is_ws(y[0]) && !is_ws(y.last())))
}

/// A line as `trimmed_lines_from` yields it: no newline, and no whitespace at
/// its end.
spec fn good_line(l: Seq<char>) -> bool {
    &&& !l.contains('\n')
    &&& (l.len() == 0 || !is_ws(l.last()))
}

proof fn lemma_trimmed_good(s: Seq<char>, i: int)
    requires
        0 <= i,
    ensures
        forall|k: int| 0 <= k < trimmed_lines_from(s, i).len() ==> good_line(#[trigger] trimmed_lines_from(s, i)[k]),
    decreases s.len() + 1 - i,
{
    if i < s.len() {
        lemma_next_nl(s, i);
        let j = next_nl(s, i);
        let piece = s.subrange(i, j);
        let t = trim_end(piece);
        lemma_back_ws(piece, piece.len() as int);
        assert(!t.contains('\n')) by {
            assert forall|k: int| 0 <= k < t.len() implies t[k] != '\n' by {
                assert(t[k] == s[i + k]);
            }
        }
        lemma_trimmed_good(s, j + 1);
        let rest = trimmed_lines_from(s, j + 1);
        assert(trimmed_lines_from(s, i) == seq![t] + rest);
        assert forall|k: int| 0 <= k < trimmed_lines_from(s, i).len() implies good_line(
            #[trigger] trimmed_lines_from(s, i)[k],
        ) by {
            if k > 0 {
                assert(trimmed_lines_from(s, i)[k] == rest[k - 1]);
            }
        }
    }
}

proof fn lemma_join_good(ls: Seq<Seq<char>>)
    requires
        forall|k: int| 0 <= k < ls.len() ==> good_line(#[trigger] ls[k]),
    ensures
        no_trailing_ws(join_lines(ls)),
        join_lines(ls).len() > 0 ==> (join_lines(ls).last() == '\n' || !is_ws(join_lines(ls).last())),
    decreases ls.len(),
{
    if ls.len() == 1 {
        assert(good_line(ls[0]));
        let l = ls[0];
        assert forall|p: int| 0 < p < l.len() && #[trigger] l[p] == '\n' implies (l[p - 1] == '\n'
            || !is_ws(l[p - 1])) by {
            assert(l.contains('\n'));
        }
    } else if ls.len() > 1 {
        let a = ls.drop_last();
        assert forall|k: int| 0 <= k < a.len() implies good_line(#[trigger] a[k]) by {
            assert(a[k] == ls[k]);
        }
        lemma_join_good(a);
        let ja = join_lines(a);
        let l = ls.last();
        assert(good_line(ls[ls.len() - 1]));
        let j = join_lines(ls);
        assert(j == ja + seq!['\n'] + l);
        assert forall|p: int| 0 < p < j.len() && #[trigger] j[p] == '\n' implies (j[p - 1] == '\n'
            || !is_ws(j[p - 1])) by {
            if p < ja.len() {
                assert(j[p] == ja[p] && j[p - 1] == ja[p - 1]);
            } else if p == ja.len() {
                assert(j[p - 1] == ja.last());
            } else {
                assert(j[p] == l[p - ja.len() - 1]);
                assert(l.contains('\n'));
            }
        }
        if l.len() > 0 {
            assert(j.last() == l.last());
        } else {
            assert(j.last() == '\n');
        }
    }
}

/// What `normalized` gives is in normal form.
proof fn lemma_normalized_is_normal(x: Seq<char>)
    ensures
        is_normal(normalized(x)),
{
    let ls = trimmed_lines_from(x, 0);
    lemma_trimmed_good(x, 0);
    lemma_join_good(ls);
    let j = join_lines(ls);
    lemma_skip_ws(j, 0);
    let a = skip_ws(j, 0);
    let js = trim_start(j);
    lemma_back_ws(js, js.len() as int);
    let b = back_ws(js, js.len() as int);
    let y = normalized(x);
    assert(y =~= j.subrange(a, a + b));
    assert forall|p: int| 0 < p < y.len() && #[trigger] y[p] == '\n' implies (y[p - 1] == '\n' || !is_ws(
        y[p - 1],
    )) by {
        assert(y[p] == j[a + p]);
        assert(y[p - 1] == j[a + p - 1]);
    }
    if y.len() > 0 {
        assert(y[0] == js[0]);
        assert(y.last() == js[b - 1]);
    }
}

/// The raw pieces between newlines of `y`, from index `i` on.
spec fn pieces_from(y: Seq<char>, i: int) -> Seq<Seq<char>>
    decreases y.len() + 1 - i,
{
    if 0 <= i < y.len() {
        proof {
            lemma_next_nl(y, i);
        }
        let j = next_nl(y, i);
        seq![y.subrange(i, j)] + pieces_from(y, j + 1)
    } else {
        Seq::empty()
    }
}

proof fn lemma_join_cons(a: Seq<char>, rest: Seq<Seq<char>>)
    requires
        rest.len() >= 1,
    ensures
        join_lines(seq![a] + rest) == a + seq!['\n'] + join_lines(rest),
    decreases rest.len(),
{
    let s = seq![a] + rest;
    if rest.len() == 1 {
        assert(s.drop_last() =~= seq![a]);
        assert(s.last() == rest[0]);
        assert(join_lines(seq![a]) == a);
        assert(join_lines(rest) == rest[0]);
        assert(join_lines(s) == join_lines(s.drop_last()) + seq!['\n'] + s.last());
        assert(join_lines(s) =~= a + seq!['\n'] + join_lines(rest));
    } else {
        let r1 = rest.drop_last();
        assert(s.drop_last() =~= seq![a] + r1);
        lemma_join_cons(a, r1);
        assert(s.last() == rest.last());
        assert(join_lines(s) == join_lines(s.drop_last()) + seq!['\n'] + s.last());
        assert(join_lines(rest) == join_lines(r1) + seq!['\n'] + rest.last());
        assert(join_lines(s) =~= a + seq!['\n'] + join_lines(rest));
    }
}

/// In normal form, the trimmed lines are the raw pieces, and joining them
/// gives the text back.
proof fn lemma_pieces(y: Seq<char>, i: int)
    requires
        is_normal(y),
        0 <= i <= y.len(),
        i == 0 || y[i - 1] == '\n',
    ensures
        trimmed_lines_from(y, i) == pieces_from(y, i),
        join_lines(pieces_from(y, i)) == y.subrange(i, y.len() as int),
    decreases y.len() - i,
{
    if i == y.len() {
        assert(y.subrange(i, i) =~= Seq::<char>::empty());
    } else {
        lemma_next_nl(y, i);
        let j = next_nl(y, i);
        let piece = y.subrange(i, j);
        if piece.len() > 0 {
            if j < y.len() {
                assert(y[j] == '\n');
                assert(y[j - 1] != '\n');
                assert(!is_ws(y[j - 1]));
            }
            assert(piece.last() == y[j - 1]);
            assert(back_ws(piece, piece.len() as int) == piece.len());
            assert(trim_end(piece) =~= piece);
        } else {
            assert(trim_end(piece) =~= piece);
        }
        if j < y.len() {
            assert(j + 1 < y.len()) by {
                if j + 1 == y.len() {
                    assert(y.last() == '\n');
                }
            }
            lemma_pieces(y, j + 1);
            assert(trimmed_lines_from(y, i) == seq![piece] + trimmed_lines_from(y, j + 1));
            assert(pieces_from(y, i) == seq![piece] + pieces_from(y, j + 1));
            lemma_next_nl(y, j + 1);
            assert(pieces_from(y, j + 1).len() >= 1);
            lemma_join_cons(piece, pieces_from(y, j + 1));
            assert(y.subrange(i, y.len() as int) =~= piece + seq!['\n'] + y.subrange(
                j + 1,
                y.len() as int,
            ));
        } else {
            assert(trimmed_lines_from(y, j + 1) =~= Seq::<Seq<char>>::empty());
            assert(pieces_from(y, j + 1) =~= Seq::<Seq<char>>::empty());
            assert(trimmed_lines_from(y, i) =~= seq![piece]);
            assert(pieces_from(y, i) =~= seq![piece]);
        }
    }
}

/// Normalizing twice is normalizing once: a note's body is already in the
/// form its file keeps.
pub proof fn law_normalize_idempotent(x: Seq<char>)
    ensures
        normalized(normalized(x)) == normalized(x),
{
    let y = normalized(x);
    lemma_normalized_is_normal(x);
    lemma_pieces(y, 0);
    assert(y.subrange(0, y.len() as int) =~= y);
    if y.len() > 0 {
        crate::text::lemma_trim_noop(y);
    } else {
        assert(trim(y) =~= y);
    }
}

// ---------------------------------------------------------------------------
// Frontmatter of a note.
// ---------------------------------------------------------------------------

/// The keys a note models itself rather than carrying along.
pub open spec fn modelled(k: Seq<char>) -> bool {
    k == "id"@ || k == "created"@ || k == "modified"@
}

/// The frontmatter keys a note does not model, in order, each set as it
/// comes.
pub open spec fn extra_of(f: Fields) -> Fields
    decreases f.len(),
{
    if f.len() == 0 {
        Seq::empty()
    } else if modelled(f.last().0) {
        extra_of(f.drop_last())
    } else {
        fields_set(extra_of(f.drop_last()), f.last().0, f.last().1)
    }
}

/// The note's id as the frontmatter gives it, or nothing.
pub open spec fn id_of(f: Fields) -> Seq<char> {
    match fields_get(f, "id"@) {
        Some(v) => v,
        None => Seq::empty(),
    }
}

/// `t` is what a note reads for a timestamp field holding `v`: the instant
/// the text names, or `fallback` where there is no text or it is not RFC 3339.
pub open spec fn stamp_from(v: Option<Seq<char>>, fallback: Stamp, t: Stamp) -> bool {
    match v {
        Some(s) => match rfc3339_parsed(s) {
            Some(p) => t.secs == p.0 && t.nanos == p.1,
            None => t == fallback,
        },
        None => t == fallback,
    }
}

/// Each of `e` set in turn on top of `acc`.
pub open spec fn set_all(acc: Fields, e: Fields) -> Fields
    decreases e.len(),
{
    if e.len() == 0 {
        acc
    } else {
        fields_set(set_all(acc, e.drop_last()), e.last().0, e.last().1)
    }
}

/// Characters of Crockford's base 32, which ULIDs are written in.
pub open spec fn crockford(c: char) -> bool {
    ('0' <= c && c <= '9') || ('A' <= c && c <= 'Z' && c != 'I' && c != 'L' && c != 'O' && c
        != 'U')
}

/// Calls `ulid::Ulid::new()` and writes it with `to_string`: twenty-six
/// characters of Crockford's base 32, as ulid's encoder writes every value.
/// Which ones depends on the clock and on chance.
#[verifier::external_body]
fn fresh_id() -> (r: String)
    ensures
        r@.len() == 26,
        forall|i: int| 0 <= i < 26 ==> crockford(#[trigger] r@[i]),
{
    ulid::Ulid::new().to_string()
}

// ---------------------------------------------------------------------------
// Notes.
// ---------------------------------------------------------------------------

/// Why a text is not a note.
#[derive(Debug, Clone, Copy, PartialEq, Eq)]
pub enum ParseError {
    /// The body held nothing but whitespace, so there is no title to slug.
    Empty,
}

impl ParseError {
    /// What the error says to a reader.
    pub fn message(&self) -> (r: String)
        ensures
            r@ == "note is empty"@,
    {
        String::from_str("note is empty")
    }
}

/// One captured entry.
#[derive(Debug, Clone, PartialEq, Eq)]
pub struct Note {
    pub id: String,
    pub created: Stamp,
    pub modified: Stamp,
    /// Everything after the frontmatter. The first non-empty line is the title.
    pub body: String,
    /// Frontmatter keys the note does not model, kept so a round trip loses
    /// nothing.
    pub extra: Frontmatter,
}

/// The frontmatter a note is written with: id, created, modified, then the
/// keys it carries along.
pub open spec fn note_fields(n: Note) -> Fields {
    let base = fields_set(
        fields_set(
            fields_set(Seq::empty(), "id"@, n.id@),
            "created"@,
            rfc3339_text(n.created.secs as int, n.created.nanos as int, n.created.offset as int),
        ),
        "modified"@,
        rfc3339_text(n.modified.secs as int, n.modified.nanos as int, n.modified.offset as int),
    );
    set_all(base, n.extra_fields())
}

/// The file a note is written as.
pub open spec fn note_text(n: Note) -> Seq<char> {
    render_spec(note_fields(n)) + n.body@ + seq!['\n']
}

/// `r` is what `Note::parse` makes of `doc`, with `fallback` for a missing
/// creation time.
pub open spec fn parsed_as(doc: Seq<char>, fallback: Stamp, r: Result<Note, ParseError>) -> bool {
    let f = split_spec(doc).0;
    let body = normalized(split_spec(doc).1);
    if body.len() == 0 {
        r == Err::<Note, ParseError>(ParseError::Empty)
    } else {
        &&& r matches Ok(n)
        &&& n.body@ == body
        &&& n.id@ == id_of(f)
        &&& n.extra_fields() == extra_of(f)
        &&& stamp_from(fields_get(f, "created"@), fallback, n.created)
        &&& stamp_from(fields_get(f, "modified"@), n.created, n.modified)
        &&& valid_stamp(n.created)
        &&& valid_stamp(n.modified)
    }
}

/// Two notes with the same text, id and carried keys, created and modified
/// at the same instants.
pub open spec fn same_note(a: Note, b: Note) -> bool {
    &&& a.id@ == b.id@
    &&& a.body@ == b.body@
    &&& a.extra_fields() == b.extra_fields()
    &&& same_instant(a.created, b.created)
    &&& same_instant(a.modified, b.modified)
}

/// A note that its file can hold exactly: a normalized, non-empty body, an
/// id on one line, timestamps that RFC 3339 at whole seconds writes exactly,
/// and carried keys that are clean and none of the modelled ones.
pub open spec fn round_trippable(n: Note) -> bool {
    &&& n.body@.len() > 0
    &&& normalized(n.body@) == n.body@
    &&& clean_value(n.id@)
    &&& exact_in_rfc3339(n.created)
    &&& exact_in_rfc3339(n.modified)
    &&& clean_fields(n.extra_fields())
    &&& forall|i: int| 0 <= i < n.extra_fields().len() ==> !modelled(#[trigger] n.extra_fields()[i].0)
}

/// Whatever `Note::parse` makes of `doc`, with any fallback, is `n` again.
pub open spec fn reads_back(doc: Seq<char>, n: Note) -> bool {
    forall|fallback: Stamp, back: Result<Note, ParseError>|
        valid_stamp(fallback) && #[trigger] parsed_as(doc, fallback, back) ==> (back matches Ok(m)
            && same_note(m, n))
}

impl Note {
    /// The frontmatter keys the note carries along without modelling them.
    pub open spec fn extra_fields(&self) -> Fields {
        self.extra@
    }
}

/// Trailing whitespace cut from every line, the whole trimmed at both ends.
/// Editors leave ragged whitespace behind, and it would otherwise show in
/// diffs of every capture.
pub fn normalize(body: &str) -> (r: String)
    ensures
        r@ == normalized(body@),
{
    let s = chars_of(body);
    let mut joined: Vec<char> = Vec::new();
    let mut i: usize = 0;
    let mut first = true;
    let ghost mut done: Seq<Seq<char>> = Seq::empty();
    while i < s.len()
        invariant
            i <= s@.len(),
            done + trimmed_lines_from(s@, i as int) == trimmed_lines_from(s@, 0),
            joined@ == join_lines(done),
            first == (done.len() == 0),
        decreases s.len() - i,
    {
        let j = next_newline(s.as_slice(), i);
        proof {
            lemma_next_nl(s@, i as int);
        }
        let seg = slice_of(s.as_slice(), i, j);
        let t = trim_end_vec(seg.as_slice());
        if !first {
            joined.push('\n');
        }
        push_all(&mut joined, t.as_slice());
        proof {
            assert(trimmed_lines_from(s@, i as int) == seq![t@] + trimmed_lines_from(s@, j + 1));
            assert(done + trimmed_lines_from(s@, i as int) =~= done.push(t@) + trimmed_lines_from(
                s@,
                j + 1,
            ));
            assert(done.push(t@).drop_last() =~= done);
            if done.len() == 0 {
                assert(joined@ =~= join_lines(done.push(t@)));
            } else {
                assert(joined@ =~= join_lines(done.push(t@)));
            }
            done = done.push(t@);
        }
        first = false;
        if j == s.len() {
            i = j;
        } else {
            i = j + 1;
        }
    }
    let out = trim_vec(joined.as_slice());
    string_of(out.as_slice())
}

/// Whether `k` is one of the keys a note models.
fn is_modelled(k: &str) -> (r: bool)
    ensures
        r == modelled(k@),
{
    let kc = chars_of(k);
    let id = chars_of("id");
    let created = chars_of("created");
    let modified = chars_of("modified");
    same_chars(kc.as_slice(), id.as_slice()) || same_chars(kc.as_slice(), created.as_slice())
        || same_chars(kc.as_slice(), modified.as_slice())
}

/// Index after the newlines starting at `i`.
fn skip_newlines_from(s: &[char], i: usize) -> (r: usize)
    requires
        i <= s@.len(),
    ensures
        r == skip_newlines(s@, i as int),
        i <= r <= s@.len(),
{
    let mut k = i;
    while k < s.len()
        invariant
            i <= k <= s@.len(),
            skip_newlines(s@, k as int) == skip_newlines(s@, i as int),
        decreases s.len() - k,
    {
        if s[k] != '\n' {
            return k;
        }
        k += 1;
    }
    k
}

impl Note {
    /// The first non-empty line, trimmed: the display name and what the
    /// filename's slug is made from.
    pub fn title(&self) -> (r: &str)
        ensures
            r@ == title_of(self.body@),
    {
        let s = chars_of(self.body.as_str());
        let n = s.len();
        let mut i: usize = 0;
        while i < n
            invariant
                i <= n == s@.len(),
                s@ == self.body@,
                title_from(s@, i as int) == title_of(s@),
            decreases n - i,
        {
            let j = next_newline(s.as_slice(), i);
            proof {
                lemma_next_nl(s@, i as int);
            }
            let seg = slice_of(s.as_slice(), i, j);
            let a = skip_ws_from(seg.as_slice(), 0);
            proof {
                lemma_skip_ws(seg@, 0);
            }
            let rest = slice_of(seg.as_slice(), a, seg.len());
            let b = back_ws_from(rest.as_slice(), rest.len());
            proof {
                lemma_back_ws(rest@, rest@.len() as int);
            }
            if b > 0 {
                proof {
                    assert(trim(seg@) =~= s@.subrange(i + a, i + a + b));
                }
                return self.body.substring_char(i + a, i + a + b);
            }
            proof {
                assert(trim_start(seg@) =~= rest@);
                assert(trim(seg@) =~= rest@.subrange(0, b as int));
                assert(trim(s@.subrange(i as int, j as int)).len() == 0);
                assert(title_from(s@, i as int) == title_from(s@, j + 1));
                if j == n {
                    assert(title_from(s@, j as int) == title_from(s@, j + 1));
                }
            }
            if j == n {
                i = j;
            } else {
                i = j + 1;
            }
        }
        self.body.substring_char(0, 0)
    }

    /// The body without its title line, and without the empty lines that
    /// follow it: the title is shown and indexed on its own.
    pub fn content(&self) -> (r: &str)
        ensures
            r@ == content_of(self.body@),
    {
        let s = chars_of(self.body.as_str());
        let p = next_newline(s.as_slice(), 0);
        proof {
            lemma_next_nl(s@, 0);
        }
        if p < s.len() {
            let k = skip_newlines_from(s.as_slice(), p + 1);
            self.body.substring_char(k, s.len())
        } else {
            self.body.substring_char(0, 0)
        }
    }
}

// ---------------------------------------------------------------------------
// Reading back what was written.
// ---------------------------------------------------------------------------

proof fn lemma_set_all_append(b: Fields, e: Fields)
    requires
        forall|i: int| 0 <= i < b.len() ==> modelled(#[trigger] b[i].0),
        forall|i: int| 0 <= i < e.len() ==> !modelled(#[trigger] e[i].0),
        distinct_keys(e),
    ensures
        set_all(b, e) == b + e,
    decreases e.len(),
{
    if e.len() == 0 {
        assert(b + e =~= b);
    } else {
        let e1 = e.drop_last();
        let k = e.last().0;
        assert forall|i: int| 0 <= i < e1.len() implies !modelled(#[trigger] e1[i].0) by {
            assert(e1[i] == e[i]);
        }
        assert forall|i: int, j: int| 0 <= i < j < e1.len() implies #[trigger] e1[i].0
            != #[trigger] e1[j].0 by {
            assert(e1[i] == e[i] && e1[j] == e[j]);
        }
        lemma_set_all_append(b, e1);
        let g = b + e1;
        lemma_find_key(g, k);
        if let Some(i) = find_key(g, k) {
            if i < b.len() {
                assert(g[i] == b[i]);
                assert(modelled(b[i].0));
                assert(!modelled(e[e.len() - 1].0));
            } else {
                assert(g[i] == e[i - b.len()]);
                assert(e[i - b.len()].0 != e[e.len() - 1].0);
            }
        }
        assert(b + e =~= g.push(e.last()));
    }
}

proof fn lemma_extra_of_modelled(b: Fields)
    requires
        forall|i: int| 0 <= i < b.len() ==> modelled(#[trigger] b[i].0),
    ensures
        extra_of(b) == Seq::<(Seq<char>, Seq<char>)>::empty(),
    decreases b.len(),
{
    if b.len() > 0 {
        let b1 = b.drop_last();
        assert forall|i: int| 0 <= i < b1.len() implies modelled(#[trigger] b1[i].0) by {
            assert(b1[i] == b[i]);
        }
        assert(modelled(b[b.len() - 1].0));
        lemma_extra_of_modelled(b1);
    }
}

proof fn lemma_extra_of_append(b: Fields, e: Fields)
    requires
        forall|i: int| 0 <= i < b.len() ==> modelled(#[trigger] b[i].0),
        forall|i: int| 0 <= i < e.len() ==> !modelled(#[trigger] e[i].0),
        distinct_keys(e),
    ensures
        extra_of(b + e) == e,
    decreases e.len(),
{
    if e.len() == 0 {
        assert(b + e =~= b);
        lemma_extra_of_modelled(b);
    } else {
        let e1 = e.drop_last();
        assert forall|i: int| 0 <= i < e1.len() implies !modelled(#[trigger] e1[i].0) by {
            assert(e1[i] == e[i]);
        }
        assert forall|i: int, j: int| 0 <= i < j < e1.len() implies #[trigger] e1[i].0
            != #[trigger] e1[j].0 by {
            assert(e1[i] == e[i] && e1[j] == e[j]);
        }
        lemma_extra_of_append(b, e1);
        assert((b + e).drop_last() =~= b + e1);
        assert((b + e).last() == e.last());
        assert(!modelled(e[e.len() - 1].0));
        lemma_find_key(e1, e.last().0);
        if let Some(i) = find_key(e1, e.last().0) {
            assert(e1[i] == e[i]);
        }
        assert(e1.push(e.last()) =~= e);
    }
}

proof fn lemma_clean_literals()
    ensures
        clean_key("id"@),
        clean_key("created"@),
        clean_key("modified"@),
        modelled("id"@),
        modelled("created"@),
        modelled("modified"@),
        "id"@ != "created"@,
        "id"@ != "modified"@,
        "created"@ != "modified"@,
{
    reveal_strlit("id");
    reveal_strlit("created");
    reveal_strlit("modified");
    assert("id"@.len() == 2);
    assert("created"@.len() == 7);
    assert("modified"@.len() == 8);
}

/// What `render` writes, `parse` reads back as the same note.
proof fn lemma_reads_back(n: Note)
    requires
        round_trippable(n),
        !rfc3339_text(n.created.secs as int, n.created.nanos as int, n.created.offset as int).contains(
            '\n',
        ),
        !rfc3339_text(n.modified.secs as int, n.modified.nanos as int, n.modified.offset as int).contains(
            '\n',
        ),
        rfc3339_parsed(
            rfc3339_text(n.created.secs as int, n.created.nanos as int, n.created.offset as int),
        ) == Some((n.created.secs as int, 0int, n.created.offset as int)),
        rfc3339_parsed(
            rfc3339_text(n.modified.secs as int, n.modified.nanos as int, n.modified.offset as int),
        ) == Some((n.modified.secs as int, 0int, n.modified.offset as int)),
    ensures
        reads_back(note_text(n), n),
{
    lemma_clean_literals();
    let c = rfc3339_text(n.created.secs as int, n.created.nanos as int, n.created.offset as int);
    let m = rfc3339_text(n.modified.secs as int, n.modified.nanos as int, n.modified.offset as int);
    let b1 = fields_set(Seq::empty(), "id"@, n.id@);
    assert(b1 =~= seq![("id"@, n.id@)]);
    lemma_find_key(b1, "created"@);
    let b2 = fields_set(b1, "created"@, c);
    assert(b2 =~= seq![("id"@, n.id@), ("created"@, c)]);
    lemma_find_key(b2, "modified"@);
    let b = fields_set(b2, "modified"@, m);
    assert(b =~= seq![("id"@, n.id@), ("created"@, c), ("modified"@, m)]);
    let e = n.extra_fields();
    assert forall|i: int| 0 <= i < b.len() implies modelled(#[trigger] b[i].0) by {}
    lemma_set_all_append(b, e);
    let f = b + e;
    assert(note_fields(n) == f);
    assert forall|i: int, j: int| 0 <= i < j < f.len() implies #[trigger] f[i].0
        != #[trigger] f[j].0 by {
        if j >= 3 {
            assert(f[j] == e[j - 3]);
            if i >= 3 {
                assert(f[i] == e[i - 3]);
            } else {
                assert(modelled(f[i].0));
                assert(!modelled(e[j - 3].0));
            }
        }
    }
    assert forall|i: int| 0 <= i < f.len() implies clean_key(#[trigger] f[i].0) && clean_value(
        f[i].1,
    ) by {
        if i >= 3 {
            assert(f[i] == e[i - 3]);
        }
    }
    assert(clean_fields(f));
    law_split_render(f, n.body@.push('\n'));
    assert(note_text(n) =~= render_spec(f) + n.body@.push('\n'));
    lemma_normalize_push_newline(n.body@);
    lemma_find_key(f, "id"@);
    lemma_find_key(f, "created"@);
    lemma_find_key(f, "modified"@);
    assert(f[0].0 == "id"@ && f[1].0 == "created"@ && f[2].0 == "modified"@);
    assert(fields_get(f, "id"@) == Some(n.id@));
    assert(fields_get(f, "created"@) == Some(c));
    assert(fields_get(f, "modified"@) == Some(m));
    lemma_extra_of_append(b, e);
    assert forall|fallback: Stamp, back: Result<Note, ParseError>|
        valid_stamp(fallback) && #[trigger] parsed_as(note_text(n), fallback, back) implies (
    back matches Ok(x) && same_note(x, n)) by {
        assert(split_spec(note_text(n)) == (f, n.body@.push('\n')));
    }
}

impl Note {
    /// A new note from raw editor text, with a fresh id and the current time
    /// to the second.
    pub fn new(body: &str) -> (r: Result<Note, ParseError>)
        ensures
            r is Err <==> normalized(body@).len() == 0,
            r matches Err(e) ==> e == ParseError::Empty,
            r matches Ok(n) ==> {
                &&& n.body@ == normalized(body@)
                &&& n.id@.len() == 26
                &&& forall|i: int| 0 <= i < 26 ==> crockford(#[trigger] n.id@[i])
                &&& n.created == n.modified
                &&& valid_stamp(n.created)
                &&& n.extra_fields().len() == 0
                &&& normalized(n.body@) == n.body@
                &&& (exact_in_rfc3339(n.created) ==> round_trippable(n))
            },
    {
        Note::new_at(body, now_local())
    }

    /// A new note from raw editor text, with a fresh id, created at the clock
    /// reading `clock` cut to whole seconds, which is all the file records:
    /// without the cut a note would differ from itself after a round trip.
    /// Where chrono finds the wall-clock time ambiguous in the machine's zone
    /// the reading is kept as it is.
    pub fn new_at(body: &str, clock: Stamp) -> (r: Result<Note, ParseError>)
        requires
            valid_stamp(clock),
        ensures
            r is Err <==> normalized(body@).len() == 0,
            r matches Err(e) ==> e == ParseError::Empty,
            r matches Ok(n) ==> {
                &&& n.body@ == normalized(body@)
                &&& n.id@.len() == 26
                &&& forall|i: int| 0 <= i < 26 ==> crockford(#[trigger] n.id@[i])
                &&& n.created == n.modified
                &&& valid_stamp(n.created)
                &&& n.created.secs == clock.secs
                &&& (n.created.nanos == 0 || n.created == clock)
                &&& n.extra_fields().len() == 0
                &&& normalized(n.body@) == n.body@
                &&& (exact_in_rfc3339(n.created) ==> round_trippable(n))
            },
    {
        let b = normalize(body);
        proof {
            law_normalize_idempotent(body@);
        }
        if b.as_str().unicode_len() == 0 {
            return Err(ParseError::Empty);
        }
        let now = truncate(clock);
        let id = fresh_id();
        let n = Note { id, created: now, modified: now, body: b, extra: Frontmatter::new() };
        proof {
            assert(!n.id@.contains('\n')) by {
                assert forall|i: int| 0 <= i < n.id@.len() implies n.id@[i] != '\n' by {
                    assert(crockford(n.id@[i]));
                }
            }
        }
        Ok(n)
    }

    /// Read a note back from its file. Missing or unreadable timestamps fall
    /// back to `fallback` (the file's own time) rather than failing: a
    /// hand-written note with no frontmatter at all is still a note.
    pub fn parse(doc: &str, fallback: Stamp) -> (r: Result<Note, ParseError>)
        requires
            valid_stamp(fallback),
        ensures
            parsed_as(doc@, fallback, r),
    {
        let (fm, rest) = Frontmatter::split(doc);
        let body = normalize(rest);
        if body.as_str().unicode_len() == 0 {
            return Err(ParseError::Empty);
        }
        let created = match fm.get("created") {
            Some(v) => match parse_time(v) {
                Some(t) => t,
                None => fallback,
            },
            None => fallback,
        };
        let items = fm.iter();
        let mut extra = Frontmatter::new();
        let mut i: usize = 0;
        while i < items.len()
            invariant
                i <= items@.len() == fm@.len(),
                forall|j: int| 0 <= j < items@.len() ==> (items@[j].0@, items@[j].1@) == #[trigger] fm@[j],
                extra@ == extra_of(fm@.subrange(0, i as int)),
            decreases items.len() - i,
        {
            let k = items[i].0.as_str();
            let v = items[i].1.as_str();
            assert(fm@.subrange(0, i + 1).drop_last() =~= fm@.subrange(0, i as int));
            assert(fm@.subrange(0, i + 1).last() == fm@[i as int]);
            if !is_modelled(k) {
                extra.set(k, v);
            }
            i += 1;
        }
        assert(fm@.subrange(0, fm@.len() as int) =~= fm@);
        let id = match fm.get("id") {
            Some(v) => String::from_str(v),
            None => String::new(),
        };
        let modified = match fm.get("modified") {
            Some(v) => match parse_time(v) {
                Some(t) => t,
                None => created,
            },
            None => created,
        };
        Ok(Note { id, created, modified, body, extra })
    }

    /// `2026-09-04-1618-kafka-consumer-rebalance-storm.md`: for people reading
    /// a directory listing; nothing parses it back.
    pub fn filename(&self) -> (r: String)
        requires
            valid_stamp(self.created),
        ensures
            r@ == formatted(
                self.created.secs as int,
                self.created.nanos as int,
                self.created.offset as int,
                FILE_MINUTE@,
            ) + seq!['-'] + slug_spec(title_of(self.body@)) + seq!['.', 'm', 'd'],
    {
        let stamp = format_stamp(self.created, FILE_MINUTE);
        let slug = slugify(self.title());
        let mut out = chars_of(stamp.as_str());
        out.push('-');
        push_str(&mut out, slug.as_str());
        out.push('.');
        out.push('m');
        out.push('d');
        string_of(out.as_slice())
    }

    /// The note's file: frontmatter, then the body and a final newline. What
    /// it writes, `parse` reads back as the same note whenever the note is
    /// one its file can hold.
    pub fn render(&self) -> (r: String)
        requires
            valid_stamp(self.created),
            valid_stamp(self.modified),
        ensures
            r@ == note_text(*self),
            round_trippable(*self) ==> reads_back(r@, *self),
    {
        let mut fm = Frontmatter::new();
        fm.set("id", self.id.as_str());
        let c = rfc3339(self.created);
        fm.set("created", c.as_str());
        let m = rfc3339(self.modified);
        fm.set("modified", m.as_str());
        let ghost base = fm@;
        let items = self.extra.iter();
        let mut i: usize = 0;
        while i < items.len()
            invariant
                i <= items@.len() == self.extra@.len(),
                forall|j: int|
                    0 <= j < items@.len() ==> (items@[j].0@, items@[j].1@) == #[trigger] self.extra@[j],
                fm@ == set_all(base, self.extra@.subrange(0, i as int)),
            decreases items.len() - i,
        {
            assert(self.extra@.subrange(0, i + 1).drop_last() =~= self.extra@.subrange(0, i as int));
            assert(self.extra@.subrange(0, i + 1).last() == self.extra@[i as int]);
            fm.set(items[i].0.as_str(), items[i].1.as_str());
            i += 1;
        }
        assert(self.extra@.subrange(0, self.extra@.len() as int) =~= self.extra@);
        let head = fm.render();
        let mut out = chars_of(head.as_str());
        push_str(&mut out, self.body.as_str());
        out.push('\n');
        let r = string_of(out.as_slice());
        proof {
            assert(r@ == note_text(*self));
            if round_trippable(*self) {
                lemma_reads_back(*self);
                assert(reads_back(r@, *self));
            }
        }
        r
    }
}

// ---------------------------------------------------------------------------
// What a note refers to.
// ---------------------------------------------------------------------------

/// Notes a note declares it supersedes: on a `supersedes:` line of its body,
/// then in a `supersedes` frontmatter field, each once.
pub open spec fn superseded_of(n: Note) -> Seq<Seq<char>> {
    dedup(
        supersedes_spec(n.body@) + match fields_get(n.extra_fields(), "supersedes"@) {
            Some(v) => targets_spec(v),
            None => Seq::empty(),
        },
    )
}

proof fn lemma_dedup_noop(s: Seq<Seq<char>>)
    requires
        s.no_duplicates(),
    ensures
        dedup(s) == s,
    decreases s.len(),
{
    if s.len() > 0 {
        let t = s.drop_last();
        assert(t.no_duplicates());
        lemma_dedup_noop(t);
        if t.contains(s.last()) {
            let k = choose|k: int| 0 <= k < t.len() && t[k] == s.last();
            assert(s[k] == s[s.len() - 1]);
        }
        assert(t.push(s.last()) =~= s);
    }
}

impl Note {
    /// Notes this one mentions with `[[name]]`.
    pub fn links(&self) -> (r: Vec<String>)
        ensures
            r@.len() == links_spec(self.body@).len(),
            forall|k: int| 0 <= k < r@.len() ==> (#[trigger] r@[k])@ == links_spec(self.body@)[k],
    {
        links(self.body.as_str())
    }

    /// Notes this one declares it supersedes, in the body or in the
    /// frontmatter: a correction must not go quiet for having used the other
    /// form.
    pub fn supersedes(&self) -> (r: Vec<String>)
        ensures
            r@.len() == superseded_of(*self).len(),
            forall|k: int| 0 <= k < r@.len() ==> (#[trigger] r@[k])@ == superseded_of(*self)[k],
    {
        let from_body = supersedes(self.body.as_str());
        let mut names: Vec<Vec<char>> = Vec::new();
        let mut i: usize = 0;
        let ghost base = supersedes_spec(self.body@);
        proof {
            law_references_distinct(self.body@);
            lemma_dedup_noop(base);
        }
        let ghost mut offered: Seq<Seq<char>> = Seq::empty();
        assert(views(names@) =~= dedup(offered));
        while i < from_body.len()
            invariant
                i <= from_body@.len() == base.len(),
                forall|k: int| 0 <= k < from_body@.len() ==> (#[trigger] from_body@[k])@ == base[k],
                offered == base.subrange(0, i as int),
                views(names@) == dedup(offered),
            decreases from_body.len() - i,
        {
            let c = chars_of(from_body[i].as_str());
            proof {
                assert(base.subrange(0, i + 1) =~= offered.push(c@));
            }
            push_new(&mut names, c, Ghost(offered));
            proof {
                offered = base.subrange(0, i + 1);
            }
            i += 1;
        }
        assert(offered =~= base);
        let field: Vec<Vec<char>> = match self.extra.get("supersedes") {
            Some(v) => {
                let vc = chars_of(v);
                targets(vc.as_slice())
            },
            None => Vec::new(),
        };
        let ghost extra_targets = match fields_get(self.extra_fields(), "supersedes"@) {
            Some(v) => targets_spec(v),
            None => Seq::empty(),
        };
        assert(views(field@) =~= extra_targets);
        let mut j: usize = 0;
        while j < field.len()
            invariant
                j <= field@.len(),
                views(field@) == extra_targets,
                offered == base + extra_targets.subrange(0, j as int),
                views(names@) == dedup(offered),
            decreases field.len() - j,
        {
            let c = field[j].clone();
            proof {
                assert(base + extra_targets.subrange(0, j + 1) =~= offered.push(field@[j as int]@));
            }
            push_new(&mut names, slice_of(c.as_slice(), 0, c.len()), Ghost(offered));
            proof {
                assert(c@.subrange(0, c@.len() as int) =~= c@);
                offered = base + extra_targets.subrange(0, j + 1);
            }
            j += 1;
        }
        assert(offered =~= base + extra_targets);
        let mut out: Vec<String> = Vec::new();
        let mut k: usize = 0;
        while k < names.len()
            invariant
                k <= names@.len(),
                views(names@) == superseded_of(*self),
                out@.len() == k,
                forall|m: int| 0 <= m < k ==> (#[trigger] out@[m])@ == views(names@)[m],
            decreases names.len() - k,
        {
            out.push(string_of(names[k].as_slice()));
            k += 1;
        }
        out
    }

    /// Images the note embeds as `![[name]]`, in order, each once.
    pub fn embeds(&self) -> (r: Vec<String>)
        ensures
            crate::index::texts_of(r@) == embeds_of(self.body@),
    {
        embedded_names(self.body.as_str())
    }
}

} // verus!
