//! A deliberately small YAML subset: a flat, ordered map of string values.
//!
//! Every value is written quoted, so `2026-09-04T16:18:42+02:00` and
//! `[[a-note]]` stay strings rather than a timestamp and a nested sequence.
//! Unknown keys are preserved in order, so a note written by a later version
//! of the app survives a round-trip through an earlier one.
use vstd::prelude::*;
use vstd::string::StrSliceExecFns;
use vstd::string::StringExecFns;

use crate::text::{
    back_ws, chars_of, find_at, find_from, has_prefix, is_ws, lemma_find_first, lemma_find_from, lemma_lines_line, lemma_next_nl, lemma_next_nl_first, lemma_next_nl_shift, lemma_trim_noop, lines, lines_of, match_at, next_newline, next_nl, push_str, same_chars, skip_ws, slice_of, starts_with, string_of, trim, trim_end, trim_end_vec, trim_vec,
};

verus! {

/// Keys and values, as text.
pub type Fields = Seq<(Seq<char>, Seq<char>)>;

#[derive(Debug, Clone, PartialEq, Eq)]
pub struct Frontmatter {
    fields: Vec<(String, String)>,
}

// ---------------------------------------------------------------------------
// The model.
// ---------------------------------------------------------------------------

/// Position of the first field named `k`.
pub open spec fn find_key(f: Fields, k: Seq<char>) -> Option<int>
    decreases f.len(),
{
    if f.len() == 0 {
        None
    } else {
        match find_key(f.drop_last(), k) {
            Some(i) => Some(i),
            None => if f.last().0 == k {
                Some(f.len() - 1)
            } else {
                None
            },
        }
    }
}

/// The value of `k`.
pub open spec fn fields_get(f: Fields, k: Seq<char>) -> Option<Seq<char>> {
    match find_key(f, k) {
        Some(i) => Some(f[i].1),
        None => None,
    }
}

/// `k` set to `v`: in place if present, appended otherwise.
pub open spec fn fields_set(f: Fields, k: Seq<char>, v: Seq<char>) -> Fields {
    match find_key(f, k) {
        Some(i) => f.update(i, (f[i].0, v)),
        None => f.push((k, v)),
    }
}

/// No key appears twice.
pub open spec fn distinct_keys(f: Fields) -> bool {
    forall|i: int, j: int| 0 <= i < j < f.len() ==> #[trigger] f[i].0 != #[trigger] f[j].0
}

pub proof fn lemma_find_key(f: Fields, k: Seq<char>)
    ensures
        find_key(f, k) matches Some(i) ==> 0 <= i < f.len() && f[i].0 == k && forall|j: int|
            0 <= j < i ==> f[j].0 != k,
        find_key(f, k) is None ==> forall|j: int| 0 <= j < f.len() ==> f[j].0 != k,
    decreases f.len(),
{
    if f.len() > 0 {
        lemma_find_key(f.drop_last(), k);
        assert forall|j: int| 0 <= j < f.len() - 1 implies f.drop_last()[j] == f[j] by {}
    }
}

pub proof fn lemma_set_distinct(f: Fields, k: Seq<char>, v: Seq<char>)
    requires
        distinct_keys(f),
    ensures
        distinct_keys(fields_set(f, k, v)),
{
    lemma_find_key(f, k);
}

/// `---` and a newline.
pub open spec fn fence_nl() -> Seq<char> {
    seq!['-', '-', '-', '\n']
}

/// `---`.
pub open spec fn fence() -> Seq<char> {
    seq!['-', '-', '-']
}

/// A value as written between quotes: backslashes and quotes escaped, and a
/// newline flattened to a space so that the value stays on its line.
pub open spec fn escape_char(c: char) -> Seq<char> {
    if c == '\\' {
        seq!['\\', '\\']
    } else if c == '"' {
        seq!['\\', '"']
    } else if c == '\n' {
        seq![' ']
    } else {
        seq![c]
    }
}

pub open spec fn escape(v: Seq<char>) -> Seq<char>
    decreases v.len(),
{
    if v.len() == 0 {
        Seq::empty()
    } else {
        escape_char(v[0]) + escape(v.drop_first())
    }
}

/// Undoes `escape`: a backslash stands for the character after it, or for
/// itself at the very end.
pub open spec fn unescape(s: Seq<char>) -> Seq<char>
    decreases s.len(),
{
    if s.len() == 0 {
        Seq::empty()
    } else if s[0] == '\\' {
        if s.len() == 1 {
            seq!['\\']
        } else {
            seq![s[1]] + unescape(s.subrange(2, s.len() as int))
        }
    } else {
        seq![s[0]] + unescape(s.drop_first())
    }
}

/// `key: "value"` and a newline.
pub open spec fn field_line(k: Seq<char>, v: Seq<char>) -> Seq<char> {
    k + seq![':', ' ', '"'] + escape(v) + seq!['"', '\n']
}

pub open spec fn render_fields(f: Fields) -> Seq<char>
    decreases f.len(),
{
    if f.len() == 0 {
        Seq::empty()
    } else {
        render_fields(f.drop_last()) + field_line(f.last().0, f.last().1)
    }
}

/// The frontmatter block as written to disk.
pub open spec fn render_spec(f: Fields) -> Seq<char> {
    fence_nl() + render_fields(f) + fence_nl()
}

/// Offset of the first line of `rest`, from `o` on, that is `---` once its
/// trailing whitespace is gone.
pub open spec fn terminator_from(rest: Seq<char>, o: int) -> Option<int>
    decreases rest.len() + 1 - o,
{
    if 0 <= o < rest.len() {
        proof {
            lemma_next_nl(rest, o);
        }
        let j = next_nl(rest, o);
        let e = if j < rest.len() {
            j + 1
        } else {
            rest.len() as int
        };
        if trim_end(rest.subrange(o, e)) == fence() {
            Some(o)
        } else {
            terminator_from(rest, e)
        }
    } else {
        None
    }
}

/// A value with a trailing ` # comment` dropped, unless it is quoted.
pub open spec fn strip_comment(v: Seq<char>) -> Seq<char> {
    if v.len() > 0 && v[0] == '"' {
        v
    } else {
        match find_from(v, seq![' ', '#'], 0) {
            Some(c) => trim_end(v.subrange(0, c)),
            None => v,
        }
    }
}

/// A value between quotes, unescaped; anything else as it stands.
pub open spec fn unquote(v: Seq<char>) -> Seq<char> {
    if v.len() >= 2 && v[0] == '"' && v.last() == '"' {
        unescape(v.subrange(1, v.len() - 1))
    } else {
        v
    }
}

/// What one line of the block contributes.
pub open spec fn apply_line(acc: Fields, line: Seq<char>) -> Fields {
    let t = trim(line);
    if t.len() == 0 || t[0] == '#' {
        acc
    } else {
        match find_from(t, seq![':'], 0) {
            Some(c) => fields_set(
                acc,
                trim(t.subrange(0, c)),
                unquote(strip_comment(trim(t.subrange(c + 1, t.len() as int)))),
            ),
            None => acc,
        }
    }
}

/// The fields the lines of a block define, in the order first seen.
pub open spec fn fields_of(ls: Seq<Seq<char>>) -> Fields
    decreases ls.len(),
{
    if ls.len() == 0 {
        Seq::empty()
    } else {
        apply_line(fields_of(ls.drop_last()), ls.last())
    }
}

/// What follows the closing line.
pub open spec fn body_after(a: Seq<char>) -> Seq<char> {
    if starts_with(a, fence_nl()) {
        a.subrange(4, a.len() as int)
    } else if starts_with(a, fence()) {
        a.subrange(3, a.len() as int)
    } else {
        a
    }
}

/// A document split into its frontmatter and body. Without an opening `---`
/// line, or without a closing one, it is all body.
pub open spec fn split_spec(doc: Seq<char>) -> (Fields, Seq<char>) {
    if !starts_with(doc, fence_nl()) {
        (Seq::empty(), doc)
    } else {
        let rest = doc.subrange(4, doc.len() as int);
        match terminator_from(rest, 0) {
            None => (Seq::empty(), doc),
            Some(end) => (
                fields_of(lines(rest.subrange(0, end))),
                body_after(rest.subrange(end, rest.len() as int)),
            ),
        }
    }
}

/// The text of each stored pair.
pub open spec fn pairs_view(v: Seq<(String, String)>) -> Fields {
    Seq::new(v.len(), |i: int| (v[i].0@, v[i].1@))
}

// ---------------------------------------------------------------------------
// Reading back what was written.
// ---------------------------------------------------------------------------

/// A key that `split` reads back as written: no colon or newline in it, no
/// whitespace at either end, and not starting with `#` (a comment).
pub open spec fn clean_key(k: Seq<char>) -> bool {
    &&& !k.contains(':')
    &&& !k.contains('\n')
    &&& (k.len() == 0 || (!is_ws(k[0]) && !is_ws(k.last()) && k[0] != '#'))
}

/// A value that `split` reads back as written: one without a newline, which
/// `render` would flatten to a space.
pub open spec fn clean_value(v: Seq<char>) -> bool {
    !v.contains('\n')
}

/// Fields that survive a round trip through the file.
pub open spec fn clean_fields(f: Fields) -> bool {
    &&& distinct_keys(f)
    &&& forall|i: int| 0 <= i < f.len() ==> clean_key(#[trigger] f[i].0) && clean_value(f[i].1)
}

/// `key: "value"` without its newline.
pub open spec fn field_text(k: Seq<char>, v: Seq<char>) -> Seq<char> {
    k + seq![':', ' ', '"'] + escape(v) + seq!['"']
}

/// The line each field is written as.
pub open spec fn field_texts(f: Fields) -> Seq<Seq<char>> {
    Seq::new(f.len(), |i: int| field_text(f[i].0, f[i].1))
}

proof fn lemma_escape_no_newline(v: Seq<char>)
    ensures
        !escape(v).contains('\n'),
    decreases v.len(),
{
    if v.len() > 0 {
        lemma_escape_no_newline(v.drop_first());
        let e = escape_char(v[0]);
        let r = escape(v.drop_first());
        assert(escape(v) == e + r);
        assert forall|k: int| 0 <= k < (e + r).len() implies (e + r)[k] != '\n' by {
            if k >= e.len() {
                assert((e + r)[k] == r[k - e.len()]);
            }
        }
    }
}

proof fn lemma_unescape_escape(v: Seq<char>)
    requires
        !v.contains('\n'),
    ensures
        unescape(escape(v)) == v,
    decreases v.len(),
{
    if v.len() > 0 {
        let rest = v.drop_first();
        assert(!rest.contains('\n')) by {
            if rest.contains('\n') {
                let k = choose|k: int| 0 <= k < rest.len() && rest[k] == '\n';
                assert(v[k + 1] == '\n');
            }
        }
        lemma_unescape_escape(rest);
        let e = escape(rest);
        let c = v[0];
        assert(c != '\n') by {
            assert(v[0] == c);
        }
        let s = escape_char(c) + e;
        assert(escape(v) == s);
        if c == '\\' || c == '"' {
            assert(s.subrange(2, s.len() as int) =~= e);
            assert(unescape(s) == seq![c] + unescape(e));
        } else {
            assert(s.drop_first() =~= e);
            assert(unescape(s) == seq![c] + unescape(e));
        }
        assert(seq![c] + rest =~= v);
    }
}

proof fn lemma_render_front(f: Fields)
    requires
        f.len() > 0,
    ensures
        render_fields(f) == field_line(f[0].0, f[0].1) + render_fields(f.drop_first()),
    decreases f.len(),
{
    if f.len() == 1 {
        assert(f.drop_last().len() == 0);
        assert(f.drop_first().len() == 0);
        assert(render_fields(f.drop_first()) == Seq::<char>::empty());
        assert(render_fields(f.drop_last()) == Seq::<char>::empty());
        assert(f.last() == f[0]);
        assert(render_fields(f) == render_fields(f.drop_last()) + field_line(f.last().0, f.last().1));
        assert(render_fields(f) =~= field_line(f[0].0, f[0].1) + render_fields(f.drop_first()));
    } else {
        let d = f.drop_last();
        lemma_render_front(d);
        let r = f.drop_first();
        assert(d.drop_first() =~= r.drop_last());
        assert(r.last() == f.last());
        assert(d[0] == f[0]);
        assert(render_fields(r) == render_fields(r.drop_last()) + field_line(r.last().0, r.last().1));
        assert(render_fields(f) == render_fields(d) + field_line(f.last().0, f.last().1));
        assert(render_fields(f) =~= field_line(f[0].0, f[0].1) + render_fields(f.drop_first()));
    }
}

proof fn lemma_field_line_text(k: Seq<char>, v: Seq<char>)
    ensures
        field_line(k, v) == field_text(k, v).push('\n'),
{
    assert(field_line(k, v) =~= field_text(k, v).push('\n'));
}

proof fn lemma_field_text_shape(k: Seq<char>, v: Seq<char>)
    requires
        clean_key(k),
        clean_value(v),
    ensures
        !field_text(k, v).contains('\n'),
        field_text(k, v).len() > k.len() + 2,
        field_text(k, v)[k.len() as int] == ':',
        field_text(k, v).last() == '"',
        !is_ws(field_text(k, v)[0]),
        field_text(k, v)[0] != '#',
{
    lemma_escape_no_newline(v);
    let t = field_text(k, v);
    let e = escape(v);
    assert(t == k + seq![':', ' ', '"'] + e + seq!['"']);
    assert forall|i: int| 0 <= i < t.len() implies t[i] != '\n' by {
        if i < k.len() {
            assert(t[i] == k[i]);
            if k[i] == '\n' {
                assert(k.contains('\n'));
            }
        } else if i < k.len() + 3 {
        } else if i < k.len() + 3 + e.len() {
            assert(t[i] == e[i - k.len() - 3]);
            if e[i - k.len() - 3] == '\n' {
                assert(e.contains('\n'));
            }
        }
    }
    assert(t[k.len() as int] == ':');
    if k.len() > 0 {
        assert(t[0] == k[0]);
    }
}

/// The lines of rendered fields, followed by anything, are the fields' lines
/// followed by that thing's lines.
proof fn lemma_lines_render(f: Fields, q: Seq<char>)
    requires
        clean_fields(f),
    ensures
        lines(render_fields(f) + q) == field_texts(f) + lines(q),
    decreases f.len(),
{
    if f.len() == 0 {
        assert(render_fields(f) + q =~= q);
        assert(field_texts(f) + lines(q) =~= lines(q));
    } else {
        lemma_render_front(f);
        let r = f.drop_first();
        assert(clean_fields(r)) by {
            assert forall|i: int| 0 <= i < r.len() implies clean_key(#[trigger] r[i].0) && clean_value(r[i].1) by {
                assert(r[i] == f[i + 1]);
            }
        }
        lemma_lines_render(r, q);
        assert(clean_key(f[0].0) && clean_value(f[0].1));
        lemma_field_text_shape(f[0].0, f[0].1);
        lemma_field_line_text(f[0].0, f[0].1);
        let x = field_text(f[0].0, f[0].1);
        lemma_lines_line(x, render_fields(r) + q);
        assert(render_fields(f) + q =~= x.push('\n') + (render_fields(r) + q));
        assert(field_texts(f) =~= seq![x] + field_texts(r));
        assert(field_texts(f) + lines(q) =~= seq![x] + (field_texts(r) + lines(q)));
    }
}

/// One field line folds into a set of the field it came from.
proof fn lemma_apply_field(acc: Fields, k: Seq<char>, v: Seq<char>)
    requires
        clean_key(k),
        clean_value(v),
    ensures
        apply_line(acc, field_text(k, v)) == fields_set(acc, k, v),
{
    let t = field_text(k, v);
    let e = escape(v);
    lemma_field_text_shape(k, v);
    lemma_trim_noop(t);
    let colon = seq![':'];
    assert(match_at(t, colon, k.len() as int)) by {
        assert(t.subrange(k.len() as int, k.len() as int + 1) =~= colon);
    }
    assert forall|j: int| 0 <= j < k.len() implies !match_at(t, colon, j) by {
        assert(t.subrange(j, j + 1)[0] == t[j]);
        assert(t[j] == k[j]);
        if k[j] == ':' {
            assert(k.contains(':'));
        }
    }
    lemma_find_first(t, colon, 0, k.len() as int);
    assert(t.subrange(0, k.len() as int) =~= k);
    if k.len() > 0 {
        lemma_trim_noop(k);
    } else {
        assert(trim(k) =~= k);
    }
    let w = t.subrange(k.len() as int + 1, t.len() as int);
    let q = seq!['"'] + e + seq!['"'];
    assert(w =~= seq![' '] + q);
    assert(skip_ws(w, 0) == 1) by {
        assert(is_ws(w[0]));
        assert(w[1] == '"');
        assert(skip_ws(w, 1) == 1);
    }
    assert(q.last() == '"');
    assert(w.last() == '"');
    assert(back_ws(w, w.len() as int) == w.len());
    assert(trim(w) =~= q);
    assert(strip_comment(q) == q);
    assert(q.subrange(1, q.len() - 1) =~= e);
    lemma_unescape_escape(v);
    assert(unquote(q) == v);
}

proof fn lemma_fields_of_texts(f: Fields)
    requires
        clean_fields(f),
    ensures
        fields_of(field_texts(f)) == f,
    decreases f.len(),
{
    if f.len() > 0 {
        let d = f.drop_last();
        assert(clean_fields(d)) by {
            assert forall|i: int| 0 <= i < d.len() implies clean_key(#[trigger] d[i].0) && clean_value(d[i].1) by {
                assert(d[i] == f[i]);
            }
        }
        lemma_fields_of_texts(d);
        assert(field_texts(f).drop_last() =~= field_texts(d));
        let (k, v) = f.last();
        assert(clean_key(f[f.len() - 1].0));
        lemma_apply_field(d, k, v);
        lemma_find_key(d, k);
        assert(find_key(d, k) is None) by {
            if let Some(i) = find_key(d, k) {
                assert(f[i].0 == f[f.len() - 1].0);
            }
        }
        assert(d.push((k, v)) =~= f);
    } else {
        assert(field_texts(f) =~= Seq::<Seq<char>>::empty());
    }
}

/// `terminator_from` past a prefix.
proof fn lemma_terminator_shift(p: Seq<char>, q: Seq<char>, i: int)
    requires
        0 <= i <= q.len(),
    ensures
        terminator_from(p + q, p.len() + i) == (match terminator_from(q, i) {
            Some(o) => Some(p.len() + o),
            None => None,
        }),
    decreases q.len() - i,
{
    if i < q.len() {
        lemma_next_nl_shift(p, q, i);
        lemma_next_nl(q, i);
        let j = next_nl(q, i);
        let pq = p + q;
        let e = if j < q.len() {
            j + 1
        } else {
            q.len() as int
        };
        assert(pq.subrange(p.len() + i, p.len() + e) =~= q.subrange(i, e));
        if trim_end(q.subrange(i, e)) != fence() {
            lemma_terminator_shift(p, q, e);
        }
    }
}

proof fn lemma_terminator_render(f: Fields, b: Seq<char>)
    requires
        clean_fields(f),
    ensures
        terminator_from(render_fields(f) + fence_nl() + b, 0) == Some(render_fields(f).len() as int),
    decreases f.len(),
{
    if f.len() == 0 {
        let s = render_fields(f) + fence_nl() + b;
        assert(s =~= fence_nl() + b);
        lemma_next_nl_first(s, 0, 3);
        assert(s.subrange(0, 4) =~= fence_nl());
        assert(back_ws(fence_nl(), 4) == 3) by {
            assert(is_ws(fence_nl()[3]));
            assert(!is_ws(fence_nl()[2]));
            assert(back_ws(fence_nl(), 3) == 3);
        }
        assert(trim_end(fence_nl()) =~= fence());
    } else {
        lemma_render_front(f);
        let r = f.drop_first();
        assert(clean_fields(r)) by {
            assert forall|i: int| 0 <= i < r.len() implies clean_key(#[trigger] r[i].0) && clean_value(r[i].1) by {
                assert(r[i] == f[i + 1]);
            }
        }
        lemma_terminator_render(r, b);
        let (k, v) = f[0];
        assert(clean_key(f[0].0) && clean_value(f[0].1));
        lemma_field_text_shape(k, v);
        lemma_field_line_text(k, v);
        let x = field_text(k, v);
        let l = field_line(k, v);
        let tail = render_fields(r) + fence_nl() + b;
        let s = l + tail;
        assert(render_fields(f) + fence_nl() + b =~= s);
        assert forall|m: int| 0 <= m < x.len() implies s[m] != '\n' by {
            assert(s[m] == x[m]);
            if x[m] == '\n' {
                assert(x.contains('\n'));
            }
        }
        assert(s[x.len() as int] == '\n');
        lemma_next_nl_first(s, 0, x.len() as int);
        assert(s.subrange(0, l.len() as int) =~= l);
        assert(back_ws(l, l.len() as int) == x.len()) by {
            assert(is_ws(l[x.len() as int]));
            assert(l[x.len() - 1] == '"');
            assert(back_ws(l, x.len() as int) == x.len());
        }
        assert(trim_end(l) =~= x);
        assert(x != fence()) by {
            if x == fence() {
                assert(x[k.len() as int] == ':');
                assert(fence()[k.len() as int] == '-');
            }
        }
        lemma_terminator_shift(l, tail, 0);
        assert(l.len() + 0 == l.len());
    }
}

/// What `render` writes, `split` reads back: the same fields in the same
/// order, and the body that followed them untouched. This holds of every
/// frontmatter whose keys have no colon, newline, surrounding whitespace or
/// leading `#`, and whose values have no newline.
pub proof fn law_split_render(f: Fields, body: Seq<char>)
    requires
        clean_fields(f),
    ensures
        split_spec(render_spec(f) + body) == (f, body),
{
    let r = render_fields(f);
    let doc = render_spec(f) + body;
    assert(doc =~= fence_nl() + (r + fence_nl() + body));
    assert(doc.subrange(0, 4) =~= fence_nl());
    let rest = doc.subrange(4, doc.len() as int);
    assert(rest =~= r + fence_nl() + body);
    lemma_terminator_render(f, body);
    assert(rest.subrange(0, r.len() as int) =~= r);
    lemma_lines_render(f, Seq::empty());
    assert(r + Seq::<char>::empty() =~= r);
    assert(lines(Seq::<char>::empty()) =~= Seq::<Seq<char>>::empty());
    assert(field_texts(f) + Seq::<Seq<char>>::empty() =~= field_texts(f));
    lemma_fields_of_texts(f);
    let a = rest.subrange(r.len() as int, rest.len() as int);
    assert(a =~= fence_nl() + body);
    assert(a.subrange(0, 4) =~= fence_nl());
    assert(a.subrange(4, a.len() as int) =~= body);
}

impl View for Frontmatter {
    type V = Fields;

    closed spec fn view(&self) -> Fields {
        pairs_view(self.fields@)
    }
}

impl Frontmatter {
    /// An empty frontmatter.
    pub fn new() -> (r: Frontmatter)
        ensures
            r@ == Seq::<(Seq<char>, Seq<char>)>::empty(),
            distinct_keys(r@),
    {
        let r = Frontmatter { fields: Vec::new() };
        assert(r@ =~= Seq::<(Seq<char>, Seq<char>)>::empty());
        r
    }

    /// The value of `key`, if set.
    pub fn get(&self, key: &str) -> (r: Option<&str>)
        ensures
            r matches Some(v) ==> fields_get(self@, key@) == Some(v@),
            r is None ==> fields_get(self@, key@) is None,
    {
        let k = String::from_str(key);
        let mut i: usize = 0;
        proof {
            lemma_find_key(self@, key@);
        }
        while i < self.fields.len()
            invariant
                i <= self.fields@.len(),
                k@ == key@,
                self@.len() == self.fields@.len(),
                forall|j: int| 0 <= j < i ==> self@[j].0 != key@,
                find_key(self@, key@) matches Some(x) ==> 0 <= x < self@.len() && self@[x].0
                    == key@ && forall|j: int| 0 <= j < x ==> self@[j].0 != key@,
                find_key(self@, key@) is None ==> forall|j: int|
                    0 <= j < self@.len() ==> self@[j].0 != key@,
            decreases self.fields.len() - i,
        {
            assert(self@[i as int].0 == self.fields@[i as int].0@);
            if self.fields[i].0 == k {
                proof {
                    if let Some(x) = find_key(self@, key@) {
                        if x > i {
                        }
                    }
                }
                assert(self@[i as int].1 == self.fields@[i as int].1@);
                return Some(self.fields[i].1.as_str());
            }
            i += 1;
        }
        None
    }

    /// Set `key`, keeping its place if it is already present.
    pub fn set(&mut self, key: &str, value: &str)
        ensures
            final(self)@ == fields_set(old(self)@, key@, value@),
            distinct_keys(old(self)@) ==> distinct_keys(final(self)@),
    {
        let k = String::from_str(key);
        let v = String::from_str(value);
        self.set_string(k, v);
    }

    fn set_string(&mut self, k: String, v: String)
        ensures
            final(self)@ == fields_set(old(self)@, k@, v@),
            distinct_keys(old(self)@) ==> distinct_keys(final(self)@),
    {
        proof {
            lemma_find_key(self@, k@);
            if distinct_keys(self@) {
                lemma_set_distinct(self@, k@, v@);
            }
        }
        let ghost before = self@;
        let mut i: usize = 0;
        let mut found = false;
        while i < self.fields.len()
            invariant_except_break
                !found,
            invariant
                i <= self.fields@.len(),
                before == self@,
                self@.len() == self.fields@.len(),
                forall|j: int| 0 <= j < i ==> self@[j].0 != k@,
            ensures
                i <= self.fields@.len(),
                before == self@,
                self@.len() == self.fields@.len(),
                forall|j: int| 0 <= j < i ==> self@[j].0 != k@,
                found ==> i < self.fields@.len() && self@[i as int].0 == k@,
                !found ==> i == self.fields@.len(),
            decreases self.fields.len() - i,
        {
            assert(self@[i as int].0 == self.fields@[i as int].0@);
            if self.fields[i].0 == k {
                found = true;
                break;
            }
            i += 1;
        }
        proof {
            lemma_find_key(before, k@);
        }
        if found {
            assert(find_key(before, k@) == Some(i as int));
            let key = self.fields[i].0.clone();
            self.fields.set(i, (key, v));
            assert(self@ =~= fields_set(before, k@, v@));
        } else {
            self.fields.push((k, v));
            assert(self@ =~= fields_set(before, k@, v@));
        }
    }

    /// Every field, in order.
    pub fn iter(&self) -> (r: Vec<(String, String)>)
        ensures
            r@.len() == self@.len(),
            forall|i: int| 0 <= i < r@.len() ==> (r@[i].0@, r@[i].1@) == #[trigger] self@[i],
    {
        let mut out: Vec<(String, String)> = Vec::new();
        let mut i: usize = 0;
        while i < self.fields.len()
            invariant
                i <= self.fields@.len(),
                self@.len() == self.fields@.len(),
                out@.len() == i,
                forall|j: int| 0 <= j < i ==> (out@[j].0@, out@[j].1@) == #[trigger] self@[j],
            decreases self.fields.len() - i,
        {
            let k = self.fields[i].0.clone();
            let v = self.fields[i].1.clone();
            out.push((k, v));
            i += 1;
        }
        out
    }

    /// The block as written at the top of a note.
    pub fn render(&self) -> (r: String)
        ensures
            r@ == render_spec(self@),
    {
        let mut out: Vec<char> = Vec::new();
        push_fence_nl(&mut out);
        let mut i: usize = 0;
        while i < self.fields.len()
            invariant
                i <= self.fields@.len(),
                self@.len() == self.fields@.len(),
                out@ == fence_nl() + render_fields(self@.subrange(0, i as int)),
            decreases self.fields.len() - i,
        {
            let ghost pre = out@;
            push_str(&mut out, self.fields[i].0.as_str());
            out.push(':');
            out.push(' ');
            out.push('"');
            let v = chars_of(self.fields[i].1.as_str());
            push_escaped(&mut out, v.as_slice());
            out.push('"');
            out.push('\n');
            proof {
                let f = self@.subrange(0, i + 1);
                assert(f.drop_last() =~= self@.subrange(0, i as int));
                assert(f.last() == self@[i as int]);
                assert(out@ =~= pre + field_line(self@[i as int].0, self@[i as int].1));
            }
            i += 1;
        }
        push_fence_nl(&mut out);
        assert(self@.subrange(0, self@.len() as int) =~= self@);
        string_of(out.as_slice())
    }

    /// Split a document into frontmatter and the body that follows it.
    ///
    /// A document without a leading `---` is all body: notes edited by hand in
    /// another editor should never be rejected.
    #[verifier::rlimit(30)]
    pub fn split(doc: &str) -> (r: (Frontmatter, &str))
        ensures
            (r.0@, r.1@) == split_spec(doc@),
    {
        let d = chars_of(doc);
        let n = d.len();
        let fence_v = fence_vec();
        if !has_prefix(d.as_slice(), fence_v.as_slice()) {
            let fm = Frontmatter::new();
            let body = doc.substring_char(0, n);
            assert(body@ =~= doc@);
            return (fm, body);
        }
        let rest = slice_of(d.as_slice(), 4, n);
        let end = match find_terminator(rest.as_slice()) {
            Some(e) => e,
            None => {
                let fm = Frontmatter::new();
                let body = doc.substring_char(0, n);
                assert(body@ =~= doc@);
                return (fm, body);
            },
        };
        let region = slice_of(rest.as_slice(), 0, end);
        let fm = Self::parse_block(region.as_slice());
        let tail = slice_of(rest.as_slice(), end, rest.len());
        let skip = body_skip(tail.as_slice());
        let start = 4 + end + skip;
        assert(body_after(tail@) =~= doc@.subrange(start as int, n as int));
        (fm, doc.substring_char(start, n))
    }

    /// The fields a block of lines defines.
fn parse_block(region: &[char]) -> (r: Frontmatter)
    ensures
        r@ == fields_of(lines(region@)),
{
    let ls = lines_of(region);
    let mut fm = Frontmatter::new();
    let mut i: usize = 0;
    while i < ls.len()
        invariant
            i <= ls@.len(),
            ls@.len() == lines(region@).len(),
            forall|k: int| 0 <= k < ls@.len() ==> (#[trigger] ls@[k])@ == lines(region@)[k],
            fm@ == fields_of(lines(region@).subrange(0, i as int)),
        decreases ls.len() - i,
    {
        fm.apply(ls[i].as_slice());
        proof {
            let t = lines(region@).subrange(0, i + 1);
            assert(t.drop_last() =~= lines(region@).subrange(0, i as int));
            assert(t.last() == ls@[i as int]@);
        }
        i += 1;
    }
    assert(lines(region@).subrange(0, ls@.len() as int) =~= lines(region@));
    fm
}

/// Fold one line of the block into the fields.
    fn apply(&mut self, line: &[char])
        ensures
            final(self)@ == apply_line(old(self)@, line@),
    {
        let t = trim_vec(line);
        if t.len() == 0 || t[0] == '#' {
            return;
        }
        let colon = vec![':'];
        assert(colon@ =~= seq![':']);
        match find_at(t.as_slice(), colon.as_slice(), 0) {
            Some(c) => {
                proof {
                    lemma_find_from(t@, colon@, 0);
                }
                let k = slice_of(t.as_slice(), 0, c);
                let k = trim_vec(k.as_slice());
                let v = slice_of(t.as_slice(), c + 1, t.len());
                let v = trim_vec(v.as_slice());
                let v = strip_comment_vec(v.as_slice());
                let v = unquote_vec(v.as_slice());
                let ks = string_of(k.as_slice());
                let vs = string_of(v.as_slice());
                self.set_string(ks, vs);
            },
            None => {},
        }
    }
}

fn fence_vec() -> (r: Vec<char>)
    ensures
        r@ == fence_nl(),
{
    let r = vec!['-', '-', '-', '\n'];
    assert(r@ =~= fence_nl());
    r
}

fn push_fence_nl(out: &mut Vec<char>)
    ensures
        final(out)@ == old(out)@ + fence_nl(),
{
    out.push('-');
    out.push('-');
    out.push('-');
    out.push('\n');
    assert(out@ =~= old(out)@ + fence_nl());
}

/// Escapes `v` onto the end of `out`.
fn push_escaped(out: &mut Vec<char>, v: &[char])
    ensures
        final(out)@ == old(out)@ + escape(v@),
{
    let mut i: usize = 0;
    assert(v@.subrange(0, v@.len() as int) =~= v@);
    while i < v.len()
        invariant
            i <= v@.len(),
            out@ + escape(v@.subrange(i as int, v@.len() as int)) == old(out)@ + escape(v@),
        decreases v.len() - i,
    {
        let ghost pre = out@;
        let c = v[i];
        if c == '\\' {
            out.push('\\');
            out.push('\\');
        } else if c == '"' {
            out.push('\\');
            out.push('"');
        } else if c == '\n' {
            out.push(' ');
        } else {
            out.push(c);
        }
        proof {
            let s = v@.subrange(i as int, v@.len() as int);
            assert(s.drop_first() =~= v@.subrange(i + 1, v@.len() as int));
            assert(out@ =~= pre + escape_char(c));
            assert(escape(s) == escape_char(c) + escape(s.drop_first()));
            assert(pre + escape(s) =~= out@ + escape(s.drop_first()));
        }
        i += 1;
    }
    assert(escape(v@.subrange(v@.len() as int, v@.len() as int)) =~= Seq::<char>::empty());
    assert(out@ + Seq::<char>::empty() =~= out@);
}

/// The offset of the closing `---` line in `rest`.
fn find_terminator(rest: &[char]) -> (r: Option<usize>)
    ensures
        r matches Some(e) ==> terminator_from(rest@, 0) == Some(e as int) && e <= rest@.len(),
        r is None ==> terminator_from(rest@, 0) is None,
{
    let n = rest.len();
    let f = vec!['-', '-', '-'];
    assert(f@ =~= fence());
    let mut o: usize = 0;
    while o < n
        invariant
            o <= n == rest@.len(),
            f@ == fence(),
            terminator_from(rest@, o as int) == terminator_from(rest@, 0),
        decreases n - o,
    {
        let j = next_newline(rest, o);
        proof {
            lemma_next_nl(rest@, o as int);
        }
        let e = if j < n {
            j + 1
        } else {
            n
        };
        let piece = slice_of(rest, o, e);
        let t = trim_end_vec(piece.as_slice());
        if same_chars(t.as_slice(), f.as_slice()) {
            return Some(o);
        }
        o = e;
    }
    None
}

/// How much of `tail` precedes the body: `---\n`, `---`, or nothing.
fn body_skip(tail: &[char]) -> (r: usize)
    ensures
        r <= tail@.len(),
        body_after(tail@) == tail@.subrange(r as int, tail@.len() as int),
{
    let a = vec!['-', '-', '-', '\n'];
    let b = vec!['-', '-', '-'];
    assert(a@ =~= fence_nl());
    assert(b@ =~= fence());
    if has_prefix(tail, a.as_slice()) {
        4
    } else if has_prefix(tail, b.as_slice()) {
        3
    } else {
        assert(tail@.subrange(0, tail@.len() as int) =~= tail@);
        0
    }
}

/// Drop a trailing ` # comment`, but only outside quotes.
fn strip_comment_vec(v: &[char]) -> (r: Vec<char>)
    ensures
        r@ == strip_comment(v@),
{
    if v.len() > 0 && v[0] == '"' {
        return slice_of(v, 0, v.len());
    }
    let pat = vec![' ', '#'];
    assert(pat@ =~= seq![' ', '#']);
    match find_at(v, pat.as_slice(), 0) {
        Some(c) => {
            proof {
                lemma_find_from(v@, pat@, 0);
            }
            let before = slice_of(v, 0, c);
            trim_end_vec(before.as_slice())
        },
        None => slice_of(v, 0, v.len()),
    }
}

/// The text between quotes, unescaped; anything else unchanged.
fn unquote_vec(v: &[char]) -> (r: Vec<char>)
    ensures
        r@ == unquote(v@),
{
    let n = v.len();
    if n >= 2 && v[0] == '"' && v[n - 1] == '"' {
        let inner = slice_of(v, 1, n - 1);
        unescape_vec(inner.as_slice())
    } else {
        slice_of(v, 0, n)
    }
}

fn unescape_vec(s: &[char]) -> (r: Vec<char>)
    ensures
        r@ == unescape(s@),
{
    let mut out: Vec<char> = Vec::new();
    let n = s.len();
    let mut i: usize = 0;
    assert(s@.subrange(0, n as int) =~= s@);
    assert(out@ + unescape(s@) =~= unescape(s@));
    while i < n
        invariant
            i <= n == s@.len(),
            out@ + unescape(s@.subrange(i as int, n as int)) == unescape(s@),
        decreases n - i,
    {
        let ghost pre = out@;
        let ghost rest = s@.subrange(i as int, n as int);
        if s[i] == '\\' {
            if i + 1 == n {
                out.push('\\');
                assert(unescape(rest) == seq!['\\']);
                assert(unescape(s@.subrange(n as int, n as int)) =~= Seq::<char>::empty());
                assert(out@ + unescape(s@.subrange(n as int, n as int)) =~= pre + unescape(rest));
                i = n;
            } else {
                out.push(s[i + 1]);
                assert(rest.subrange(2, rest.len() as int) =~= s@.subrange(i + 2, n as int));
                assert(out@ + unescape(s@.subrange(i + 2, n as int)) =~= pre + unescape(rest));
                i = i + 2;
            }
        } else {
            out.push(s[i]);
            assert(rest.drop_first() =~= s@.subrange(i + 1, n as int));
            assert(out@ + unescape(s@.subrange(i + 1, n as int)) =~= pre + unescape(rest));
            i = i + 1;
        }
    }
    assert(unescape(s@.subrange(n as int, n as int)) =~= Seq::<char>::empty());
    assert(out@ + Seq::<char>::empty() =~= out@);
    assert(s@.subrange(0, n as int) =~= s@);
    out
}

} // verus!
