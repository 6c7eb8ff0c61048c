//! References from one note to another.
//!
//! Two kinds, and the difference is the point. A plain `[[name]]` is a
//! mention. A `supersedes:` line is a claim that the note it names has been
//! corrected, which the viewer turns into a banner.
use vstd::prelude::*;

use crate::text::{
    chars_of, dedup, find_at, find_from, has_char, has_prefix, is_ws, lemma_dedup, lemma_find_first, lemma_find_from,
    lemma_lines_line, lemma_lines_shift, lemma_next_nl, lemma_skip_ws, lines, lines_from, lines_of, match_at,
    next_nl, push_new, skip_ws, slice_of, starts_with, string_of, strip_cr, trim, trim_start, trim_start_vec,
    trim_vec, views,
};

verus! {

/// `[[`.
pub open spec fn open_link() -> Seq<char> {
    seq!['[', '[']
}

/// `]]`.
pub open spec fn close_link() -> Seq<char> {
    seq![']', ']']
}

/// `.md`.
pub open spec fn md_ext() -> Seq<char> {
    seq!['.', 'm', 'd']
}

/// `supersedes:`.
pub open spec fn supersedes_prefix() -> Seq<char> {
    seq!['s', 'u', 'p', 'e', 'r', 's', 'e', 'd', 'e', 's', ':']
}

/// Every trailing `.md` removed (`str::trim_end_matches(".md")`).
pub open spec fn strip_md(s: Seq<char>) -> Seq<char>
    decreases s.len(),
{
    if s.len() >= 3 && s.subrange(s.len() - 3, s.len() as int) == md_ext() {
        strip_md(s.subrange(0, s.len() - 3))
    } else {
        s
    }
}

/// A link target is one bare name: not empty, not nested, on one line.
pub open spec fn bare_name(n: Seq<char>) -> bool {
    n.len() > 0 && !n.contains('[') && !n.contains(']') && !n.contains('\n')
}

/// The target of the `[[` at `m`, if it is a well-formed link rather than an
/// embed (`![[`), an unclosed bracket, or something that is not a bare name.
pub open spec fn candidate(t: Seq<char>, m: int) -> Option<Seq<char>> {
    if m > 0 && t[m - 1] == '!' {
        None
    } else {
        let rest = t.subrange(m + 2, t.len() as int);
        match find_from(rest, close_link(), 0) {
            None => None,
            Some(e) => {
                let name = strip_md(trim(rest.subrange(0, e)));
                if bare_name(name) {
                    Some(name)
                } else {
                    None
                }
            },
        }
    }
}

/// The link targets of `t` from `i` on, one per `[[` found scanning left to
/// right without overlaps, repeats included.
pub open spec fn candidates_from(t: Seq<char>, i: int) -> Seq<Seq<char>>
    decreases t.len() + 1 - i,
{
    if 0 <= i <= t.len() {
        match find_from(t, open_link(), i) {
            None => Seq::empty(),
            Some(m) => {
                proof {
                    lemma_find_from(t, open_link(), i);
                }
                let rest = candidates_from(t, m + 2);
                match candidate(t, m) {
                    Some(n) => seq![n] + rest,
                    None => rest,
                }
            },
        }
    } else {
        Seq::empty()
    }
}

/// Every `[[name]]` in `t`, in order and without duplicates.
pub open spec fn targets_spec(t: Seq<char>) -> Seq<Seq<char>> {
    dedup(candidates_from(t, 0))
}

/// Whether a line declares a supersession.
pub open spec fn is_supersedes_line(l: Seq<char>) -> bool {
    starts_with(trim_start(l), supersedes_prefix())
}

/// The targets of the lines of the wanted kind, line by line.
pub open spec fn refs_of(ls: Seq<Seq<char>>, typed: bool) -> Seq<Seq<char>>
    decreases ls.len(),
{
    if ls.len() == 0 {
        Seq::empty()
    } else {
        let a = refs_of(ls.drop_last(), typed);
        if is_supersedes_line(ls.last()) == typed {
            a + targets_spec(ls.last())
        } else {
            a
        }
    }
}

/// Targets on lines of the wanted kind, in order and without duplicates.
pub open spec fn collect_spec(body: Seq<char>, typed: bool) -> Seq<Seq<char>> {
    dedup(refs_of(lines(body), typed))
}

/// Notes `body` mentions with `[[name]]`; targets on a `supersedes:` line are
/// the other kind and are left out.
pub open spec fn links_spec(body: Seq<char>) -> Seq<Seq<char>> {
    collect_spec(body, false)
}

/// Notes `body` declares itself to supersede.
pub open spec fn supersedes_spec(body: Seq<char>) -> Seq<Seq<char>> {
    collect_spec(body, true)
}

fn strip_md_vec(s: Vec<char>) -> (r: Vec<char>)
    ensures
        r@ == strip_md(s@),
    decreases s@.len(),
{
    let n = s.len();
    if n >= 3 && s[n - 3] == '.' && s[n - 2] == 'm' && s[n - 1] == 'd' {
        assert(s@.subrange(n - 3, n as int) =~= md_ext());
        let t = slice_of(s.as_slice(), 0, n - 3);
        strip_md_vec(t)
    } else {
        proof {
            if n >= 3 && s@.subrange(n - 3, n as int) == md_ext() {
                assert(s@.subrange(n - 3, n as int)[0] == s@[n - 3]);
                assert(s@.subrange(n - 3, n as int)[1] == s@[n - 2]);
                assert(s@.subrange(n - 3, n as int)[2] == s@[n - 1]);
            }
        }
        s
    }
}

/// The target of the `[[` at `m`, as `candidate` says.
fn candidate_at(t: &[char], m: usize) -> (r: Option<Vec<char>>)
    requires
        m + 2 <= t@.len(),
    ensures
        r matches Some(n) ==> candidate(t@, m as int) == Some(n@),
        r is None ==> candidate(t@, m as int) is None,
{
    if m > 0 && t[m - 1] == '!' {
        return None;
    }
    let rest = slice_of(t, m + 2, t.len());
    let close = vec![']', ']'];
    assert(close@ =~= close_link());
    match find_at(rest.as_slice(), close.as_slice(), 0) {
        None => None,
        Some(e) => {
            proof {
                lemma_find_from(rest@, close@, 0);
            }
            let inner = slice_of(rest.as_slice(), 0, e);
            let name = strip_md_vec(trim_vec(inner.as_slice()));
            if name.len() == 0 || has_char(name.as_slice(), '[') || has_char(name.as_slice(), ']')
                || has_char(name.as_slice(), '\n') {
                None
            } else {
                Some(name)
            }
        },
    }
}

/// Every `[[name]]` in `t`, in order and without duplicates.
///
/// `![[name]]` is an attachment embed, so a bare search for `[[` would collect
/// every pasted screenshot as a link to a note that does not exist.
pub fn targets(t: &[char]) -> (r: Vec<Vec<char>>)
    ensures
        views(r@) == targets_spec(t@),
{
    let open = vec!['[', '['];
    assert(open@ =~= open_link());
    let mut out: Vec<Vec<char>> = Vec::new();
    let ghost mut offered: Seq<Seq<char>> = Seq::empty();
    let mut i: usize = 0;
    assert(views(out@) =~= dedup(offered));
    loop
        invariant
            i <= t@.len(),
            open@ == open_link(),
            views(out@) == dedup(offered),
            offered + candidates_from(t@, i as int) == candidates_from(t@, 0),
        decreases t@.len() + 1 - i,
    {
        match find_at(t, open.as_slice(), i) {
            None => {
                assert(candidates_from(t@, i as int) == Seq::<Seq<char>>::empty());
                assert(offered + Seq::<Seq<char>>::empty() =~= offered);
                return out;
            },
            Some(m) => {
                proof {
                    lemma_find_from(t@, open_link(), i as int);
                }
                let n_t = t.len();
                assert(m + 2 <= n_t);
                let c = candidate_at(t, m);
                match c {
                    Some(n) => {
                        proof {
                            assert(candidates_from(t@, i as int) == seq![n@] + candidates_from(t@, m + 2));
                            assert(offered + candidates_from(t@, i as int) =~= offered.push(n@) + candidates_from(t@, m + 2));
                        }
                        push_new(&mut out, n, Ghost(offered));
                        proof {
                            offered = offered.push(n@);
                        }
                    },
                    None => {
                        assert(candidates_from(t@, i as int) == candidates_from(t@, m + 2));
                    },
                }
                i = m + 2;
            },
        }
    }
}

/// Whether a line declares a supersession.
fn supersedes_line(l: &[char]) -> (r: bool)
    ensures
        r == is_supersedes_line(l@),
{
    let t = trim_start_vec(l);
    let p = vec!['s', 'u', 'p', 'e', 'r', 's', 'e', 'd', 'e', 's', ':'];
    assert(p@ =~= supersedes_prefix());
    has_prefix(t.as_slice(), p.as_slice())
}

/// Walk the body one line at a time, keeping only lines of the wanted kind.
/// Supersession is a claim about the note as a whole, so it owns its line.
fn collect(body: &[char], typed: bool) -> (r: Vec<Vec<char>>)
    ensures
        views(r@) == collect_spec(body@, typed),
{
    let ls = lines_of(body);
    let ghost all = lines(body@);
    let mut out: Vec<Vec<char>> = Vec::new();
    let ghost mut offered: Seq<Seq<char>> = Seq::empty();
    assert(views(out@) =~= dedup(offered));
    let mut i: usize = 0;
    while i < ls.len()
        invariant
            i <= ls@.len() == all.len(),
            all == lines(body@),
            forall|k: int| 0 <= k < ls@.len() ==> (#[trigger] ls@[k])@ == all[k],
            views(out@) == dedup(offered),
            offered == refs_of(all.subrange(0, i as int), typed),
        decreases ls.len() - i,
    {
        let ghost pre = offered;
        proof {
            let sub = all.subrange(0, i + 1);
            assert(sub.drop_last() =~= all.subrange(0, i as int));
            assert(sub.last() == ls@[i as int]@);
        }
        if supersedes_line(ls[i].as_slice()) == typed {
            let names = targets(ls[i].as_slice());
            let ghost tl = targets_spec(ls@[i as int]@);
            let mut j: usize = 0;
            while j < names.len()
                invariant
                    j <= names@.len() == tl.len(),
                    views(names@) == tl,
                    views(out@) == dedup(offered),
                    offered == pre + tl.subrange(0, j as int),
                decreases names.len() - j,
            {
                let n = slice_of(names[j].as_slice(), 0, names[j].len());
                assert(n@ =~= names@[j as int]@);
                assert(tl[j as int] == n@);
                push_new(&mut out, n, Ghost(offered));
                proof {
                    assert(pre + tl.subrange(0, j + 1) =~= offered.push(n@));
                    offered = offered.push(n@);
                }
                j += 1;
            }
            assert(tl.subrange(0, tl.len() as int) =~= tl);
        }
        i += 1;
    }
    assert(all.subrange(0, all.len() as int) =~= all);
    out
}

fn to_strings(v: &Vec<Vec<char>>) -> (r: Vec<String>)
    ensures
        r@.len() == v@.len(),
        forall|k: int| 0 <= k < r@.len() ==> (#[trigger] r@[k])@ == v@[k]@,
{
    let mut out: Vec<String> = Vec::new();
    let mut i: usize = 0;
    while i < v.len()
        invariant
            i <= v@.len(),
            out@.len() == i,
            forall|k: int| 0 <= k < i ==> (#[trigger] out@[k])@ == v@[k]@,
        decreases v.len() - i,
    {
        out.push(string_of(v[i].as_slice()));
        i += 1;
    }
    out
}

/// Notes this body mentions with `[[name]]`, in order and without duplicates.
///
/// Targets on a `supersedes:` line are left out — they are the other kind.
pub fn links(body: &str) -> (r: Vec<String>)
    ensures
        r@.len() == links_spec(body@).len(),
        forall|k: int| 0 <= k < r@.len() ==> (#[trigger] r@[k])@ == links_spec(body@)[k],
{
    let b = chars_of(body);
    let v = collect(b.as_slice(), false);
    to_strings(&v)
}

/// Notes this body declares itself to supersede, in order and without
/// duplicates.
pub fn supersedes(body: &str) -> (r: Vec<String>)
    ensures
        r@.len() == supersedes_spec(body@).len(),
        forall|k: int| 0 <= k < r@.len() ==> (#[trigger] r@[k])@ == supersedes_spec(body@)[k],
{
    let b = chars_of(body);
    let v = collect(b.as_slice(), true);
    to_strings(&v)
}

/// A note mentions each other note once, and declares each supersession
/// once, however often the text repeats them.
pub proof fn law_references_distinct(body: Seq<char>)
    ensures
        links_spec(body).no_duplicates(),
        supersedes_spec(body).no_duplicates(),
{
    lemma_dedup(refs_of(lines(body), false));
    lemma_dedup(refs_of(lines(body), true));
}

// ---------------------------------------------------------------------------
// Laws over appended lines.
// ---------------------------------------------------------------------------

/// A character that cannot end `p` changes nowhere `p` is found when it is
/// appended.
proof fn lemma_find_push(s: Seq<char>, p: Seq<char>, c: char, i: int)
    requires
        0 <= i,
        p.len() >= 1,
        p.last() != c,
    ensures
        find_from(s.push(c), p, i) == find_from(s, p, i),
    decreases s.len() + 2 - i,
{
    let t = s.push(c);
    if i + p.len() <= t.len() {
        if i + p.len() <= s.len() {
            assert(t.subrange(i, i + p.len()) =~= s.subrange(i, i + p.len()));
        } else {
            assert(t.subrange(i, i + p.len()).last() == c);
            assert(!match_at(t, p, i));
        }
        lemma_find_push(s, p, c, i + 1);
    }
}

/// A carriage return at the end of a text adds no link target.
proof fn lemma_candidates_cr(t: Seq<char>, i: int)
    requires
        0 <= i,
    ensures
        candidates_from(t.push('\r'), i) == candidates_from(t, i),
    decreases t.len() + 2 - i,
{
    let u = t.push('\r');
    lemma_find_push(t, open_link(), '\r', i);
    if i <= t.len() {
        match find_from(t, open_link(), i) {
            None => {},
            Some(m) => {
                lemma_find_from(t, open_link(), i);
                lemma_candidates_cr(t, m + 2);
                let rest = t.subrange(m + 2, t.len() as int);
                let rest2 = u.subrange(m + 2, u.len() as int);
                assert(rest2 =~= rest.push('\r'));
                lemma_find_push(rest, close_link(), '\r', 0);
                if m > 0 {
                    assert(u[m - 1] == t[m - 1]);
                }
                match find_from(rest, close_link(), 0) {
                    None => {},
                    Some(e) => {
                        lemma_find_from(rest, close_link(), 0);
                        assert(rest2.subrange(0, e) =~= rest.subrange(0, e));
                    },
                }
                assert(candidate(u, m) == candidate(t, m));
            },
        }
    } else if i == t.len() + 1 {
        assert(find_from(u, open_link(), i) is None);
    }
}

/// `skip_ws` over a text with a whitespace character appended.
proof fn lemma_skip_ws_push(s: Seq<char>, c: char, i: int)
    requires
        0 <= i <= s.len(),
        is_ws(c),
    ensures
        skip_ws(s, i) < s.len() ==> skip_ws(s.push(c), i) == skip_ws(s, i),
        skip_ws(s, i) == s.len() ==> skip_ws(s.push(c), i) == s.len() + 1,
    decreases s.len() - i,
{
    let t = s.push(c);
    if i < s.len() {
        assert(t[i] == s[i]);
        if is_ws(s[i]) {
            lemma_skip_ws_push(s, c, i + 1);
        }
    } else {
        assert(t[i] == c);
        assert(skip_ws(t, i + 1) == i + 1);
    }
}

/// A line's kind and its targets do not depend on a `\r` before its newline.
proof fn lemma_strip_cr_refs(l: Seq<char>)
    ensures
        is_supersedes_line(strip_cr(l)) == is_supersedes_line(l),
        targets_spec(strip_cr(l)) == targets_spec(l),
{
    if l.len() > 0 && l.last() == '\r' {
        let s = l.drop_last();
        assert(l =~= s.push('\r'));
        lemma_candidates_cr(s, 0);
        lemma_skip_ws(s, 0);
        lemma_skip_ws_push(s, '\r', 0);
        let k = skip_ws(s, 0);
        if k < s.len() {
            assert(trim_start(l) =~= trim_start(s).push('\r'));
            let a = trim_start(s);
            let pre = supersedes_prefix();
            let ap = a.push('\r');
            if starts_with(ap, pre) && !starts_with(a, pre) {
                if a.len() >= 11 {
                    assert(a.subrange(0, 11) =~= ap.subrange(0, 11));
                }
                assert(ap.subrange(0, 11)[10] == pre[10]);
                assert(ap[10] == ap.subrange(0, 11)[10]);
                assert(ap[10] == '\r');
            }
            if starts_with(a, pre) {
                assert(a.push('\r').subrange(0, 11) =~= a.subrange(0, 11));
            }
        } else {
            assert(trim_start(l).len() == 0);
            assert(trim_start(s).len() == 0);
        }
    }
}

/// The targets of lines, kept by kind, for two runs of lines one after the
/// other.
proof fn lemma_refs_concat(a: Seq<Seq<char>>, b: Seq<Seq<char>>, typed: bool)
    ensures
        refs_of(a + b, typed) == refs_of(a, typed) + refs_of(b, typed),
    decreases b.len(),
{
    if b.len() == 0 {
        assert(a + b =~= a);
        assert(refs_of(a, typed) + Seq::<Seq<char>>::empty() =~= refs_of(a, typed));
    } else {
        assert((a + b).drop_last() =~= a + b.drop_last());
        assert((a + b).last() == b.last());
        lemma_refs_concat(a, b.drop_last(), typed);
        if is_supersedes_line(b.last()) == typed {
            assert(refs_of(a, typed) + refs_of(b.drop_last(), typed) + targets_spec(b.last()) =~= refs_of(
                a,
                typed,
            ) + (refs_of(b.drop_last(), typed) + targets_spec(b.last())));
        }
    }
}

proof fn lemma_refs_one(l: Seq<char>, typed: bool)
    ensures
        refs_of(seq![l], typed) == if is_supersedes_line(l) == typed {
            targets_spec(l)
        } else {
            Seq::empty()
        },
{
    assert(seq![l].drop_last() =~= Seq::<Seq<char>>::empty());
    assert(seq![l].last() == l);
    assert(refs_of(Seq::<Seq<char>>::empty(), typed) == Seq::<Seq<char>>::empty());
    assert(Seq::<Seq<char>>::empty() + targets_spec(l) =~= targets_spec(l));
}

/// The lines of a text, then a newline and one more line `x`: the text's
/// lines, with an empty line after a text that ended its last line (or was
/// empty), or else with its last line's `\r` dropped; and then `x`, if it is
/// not empty.
proof fn lemma_lines_append(b: Seq<char>, x: Seq<char>, i: int)
    requires
        !x.contains('\n'),
        0 <= i <= b.len(),
    ensures
        ({
            let ls = lines_from(b, i);
            let tail = lines(x);
            lines_from(b + seq!['\n'] + x, i) == if i == b.len() || b.last() == '\n' {
                ls + seq![Seq::<char>::empty()] + tail
            } else {
                ls.drop_last() + seq![strip_cr(ls.last())] + tail
            }
        }),
        i < b.len() && b.last() != '\n' ==> lines_from(b, i).len() > 0,
    decreases b.len() - i,
{
    let t = seq!['\n'] + x;
    let s = b + t;
    assert(b + seq!['\n'] + x =~= s);
    lemma_lines_shift(seq!['\n'], x, 0);
    assert(seq!['\n'] + x =~= Seq::<char>::empty().push('\n') + x);
    lemma_lines_line(Seq::<char>::empty(), x);
    if i == b.len() {
        lemma_lines_shift(b, t, 0);
        assert(lines_from(b, i) =~= Seq::<Seq<char>>::empty());
        assert(lines(t) == seq![Seq::<char>::empty()] + lines(x));
        assert(Seq::<Seq<char>>::empty() + seq![Seq::<char>::empty()] + lines(x) =~= lines(t));
    } else {
        lemma_next_nl(b, i);
        lemma_next_nl(s, i);
        let j = next_nl(b, i);
        assert forall|k: int| 0 <= k < b.len() implies s[k] == b[k] by {}
        if j < b.len() {
            assert(s[j] == '\n');
            crate::text::lemma_next_nl_first(s, i, j);
            assert(s.subrange(i, j) =~= b.subrange(i, j));
            lemma_lines_append(b, x, j + 1);
            let rest_b = lines_from(b, j + 1);
            let line = strip_cr(b.subrange(i, j));
            assert(lines_from(b, i) == seq![line] + rest_b);
            assert(lines_from(s, i) == seq![line] + lines_from(s, j + 1));
            if j + 1 == b.len() {
                assert(b.last() == '\n');
            }
            if !(b.last() == '\n') {
                assert(j + 1 < b.len());
                assert((seq![line] + rest_b).drop_last() =~= seq![line] + rest_b.drop_last());
                assert((seq![line] + rest_b).last() == rest_b.last());
                assert(seq![line] + (rest_b.drop_last() + seq![strip_cr(rest_b.last())] + lines(x)) =~= (
                seq![line] + rest_b).drop_last() + seq![strip_cr((seq![line] + rest_b).last())] + lines(x));
            } else {
                assert(seq![line] + (rest_b + seq![Seq::<char>::empty()] + lines(x)) =~= seq![line] + rest_b
                    + seq![Seq::<char>::empty()] + lines(x));
            }
        } else {
            assert(s[b.len() as int] == '\n');
            crate::text::lemma_next_nl_first(s, i, b.len() as int);
            assert(s.subrange(i, b.len() as int) =~= b.subrange(i, b.len() as int));
            lemma_lines_shift(b, t, 1);
            assert(lines_from(b, i) == seq![b.subrange(i, b.len() as int)] + lines_from(b, b.len() as int + 1));
            assert(lines_from(b, b.len() as int + 1) =~= Seq::<Seq<char>>::empty());
            assert(lines_from(s, i) == seq![strip_cr(b.subrange(i, b.len() as int))] + lines_from(s, b.len() as int + 1));
            assert(b.last() != '\n') by {
                assert(b[b.len() - 1] != '\n');
            }
            let ls = lines_from(b, i);
            assert(ls =~= seq![b.subrange(i, b.len() as int)]);
            assert(ls.drop_last() + seq![strip_cr(ls.last())] + lines(x) =~= seq![strip_cr(b.subrange(i, b.len() as int))] + lines(x));
        }
    }
}

/// No match from `i` on: nothing is found.
proof fn lemma_find_none(s: Seq<char>, p: Seq<char>, i: int)
    requires
        0 <= i,
        forall|j: int| i <= j ==> !match_at(s, p, j),
    ensures
        find_from(s, p, i) is None,
    decreases s.len() + 1 - i,
{
    if i + p.len() <= s.len() {
        lemma_find_none(s, p, i + 1);
    }
}

/// Every candidate target is one bare name.
proof fn lemma_candidates_bare(t: Seq<char>, i: int)
    ensures
        forall|k: int| 0 <= k < candidates_from(t, i).len() ==> bare_name(#[trigger] candidates_from(t, i)[k]),
    decreases t.len() + 1 - i,
{
    if 0 <= i <= t.len() {
        match find_from(t, open_link(), i) {
            None => {},
            Some(m) => {
                lemma_find_from(t, open_link(), i);
                lemma_candidates_bare(t, m + 2);
                let rest = candidates_from(t, m + 2);
                match candidate(t, m) {
                    Some(n) => {
                        assert forall|k: int| 0 <= k < (seq![n] + rest).len() implies bare_name(
                            #[trigger] (seq![n] + rest)[k],
                        ) by {
                            if k > 0 {
                                assert((seq![n] + rest)[k] == rest[k - 1]);
                            }
                        }
                    },
                    None => {},
                }
            },
        }
    }
}

proof fn lemma_refs_bare(ls: Seq<Seq<char>>, typed: bool)
    ensures
        forall|k: int| 0 <= k < refs_of(ls, typed).len() ==> bare_name(#[trigger] refs_of(ls, typed)[k]),
    decreases ls.len(),
{
    if ls.len() > 0 {
        lemma_refs_bare(ls.drop_last(), typed);
        let a = refs_of(ls.drop_last(), typed);
        let t = targets_spec(ls.last());
        lemma_candidates_bare(ls.last(), 0);
        lemma_dedup(candidates_from(ls.last(), 0));
        if is_supersedes_line(ls.last()) == typed {
            assert forall|k: int| 0 <= k < (a + t).len() implies bare_name(#[trigger] (a + t)[k]) by {
                if k >= a.len() {
                    let x = t[k - a.len()];
                    assert(t.contains(x));
                    assert(candidates_from(ls.last(), 0).contains(x));
                    let j = choose|j: int| 0 <= j < candidates_from(ls.last(), 0).len() && candidates_from(
                        ls.last(),
                        0,
                    )[j] == x;
                }
            }
        }
    }
}

/// A note's links and its supersessions are each listed once, and each is
/// one bare name: not empty, with no bracket and no line break.
pub proof fn law_references_shape(body: Seq<char>)
    ensures
        links_spec(body).no_duplicates(),
        supersedes_spec(body).no_duplicates(),
        forall|k: int| 0 <= k < links_spec(body).len() ==> bare_name(#[trigger] links_spec(body)[k]),
        forall|k: int| 0 <= k < supersedes_spec(body).len() ==> bare_name(#[trigger] supersedes_spec(body)[k]),
{
    law_references_distinct(body);
    let ls = lines(body);
    lemma_refs_bare(ls, false);
    lemma_refs_bare(ls, true);
    lemma_dedup(refs_of(ls, false));
    lemma_dedup(refs_of(ls, true));
    assert forall|k: int| 0 <= k < links_spec(body).len() implies bare_name(#[trigger] links_spec(body)[k]) by {
        let x = links_spec(body)[k];
        assert(links_spec(body).contains(x));
        assert(refs_of(ls, false).contains(x));
        let j = choose|j: int| 0 <= j < refs_of(ls, false).len() && refs_of(ls, false)[j] == x;
    }
    assert forall|k: int| 0 <= k < supersedes_spec(body).len() implies bare_name(
        #[trigger] supersedes_spec(body)[k],
    ) by {
        let x = supersedes_spec(body)[k];
        assert(supersedes_spec(body).contains(x));
        assert(refs_of(ls, true).contains(x));
        let j = choose|j: int| 0 <= j < refs_of(ls, true).len() && refs_of(ls, true)[j] == x;
    }
}

/// `supersedes: ` followed by the rest of a line.
pub open spec fn supersedes_line_of(line: Seq<char>) -> Seq<char> {
    supersedes_prefix() + seq![' '] + line
}

proof fn lemma_supersedes_line_of(line: Seq<char>)
    requires
        !line.contains('\n'),
    ensures
        is_supersedes_line(supersedes_line_of(line)),
        lines(supersedes_line_of(line)) == seq![supersedes_line_of(line)],
        !supersedes_line_of(line).contains('\n'),
{
    let x = supersedes_line_of(line);
    assert(x[0] == 's');
    assert(skip_ws(x, 0) == 0);
    assert(trim_start(x) =~= x);
    assert(x.subrange(0, 11) =~= supersedes_prefix());
    assert forall|k: int| 0 <= k < x.len() implies x[k] != '\n' by {
        if k >= 12 {
            assert(x[k] == line[k - 12]);
            if line[k - 12] == '\n' {
                assert(line.contains('\n'));
            }
        }
    }
    if x.contains('\n') {
        let k = choose|k: int| 0 <= k < x.len() && x[k] == '\n';
    }
    lemma_next_nl(x, 0);
    assert(next_nl(x, 0) == x.len());
    assert(x.subrange(0, x.len() as int) =~= x);
    assert(lines_from(x, x.len() as int + 1) =~= Seq::<Seq<char>>::empty());
    assert(lines(x) =~= seq![x] + lines_from(x, x.len() as int + 1));
}

/// What a body's lines give of the wanted kind once a newline and one more
/// line are appended: what they gave, and then the new line's targets if it
/// is of that kind.
proof fn lemma_refs_append(b: Seq<char>, x: Seq<char>, typed: bool)
    requires
        !x.contains('\n'),
        x.len() > 0,
        lines(x) == seq![x],
    ensures
        refs_of(lines(b + seq!['\n'] + x), typed) == refs_of(lines(b), typed) + refs_of(seq![x], typed),
{
    lemma_lines_append(b, x, 0);
    let ls = lines(b);
    let e = Seq::<char>::empty();
    lemma_refs_one(e, typed);
    lemma_refs_one(x, typed);
    assert(candidates_from(e, 0) =~= Seq::<Seq<char>>::empty());
    assert(targets_spec(e) =~= Seq::<Seq<char>>::empty());
    assert(!is_supersedes_line(e));
    if 0 == b.len() || b.last() == '\n' {
        lemma_refs_concat(ls + seq![e], seq![x], typed);
        lemma_refs_concat(ls, seq![e], typed);
        assert(refs_of(ls, typed) + Seq::<Seq<char>>::empty() =~= refs_of(ls, typed));
    } else {
        let l = ls.last();
        let front = ls.drop_last();
        lemma_strip_cr_refs(l);
        lemma_refs_one(strip_cr(l), typed);
        lemma_refs_concat(front + seq![strip_cr(l)], seq![x], typed);
        lemma_refs_concat(front, seq![strip_cr(l)], typed);
        lemma_refs_concat(front, seq![l], typed);
        assert(front + seq![l] =~= ls);
    }
}

/// Targets on a `supersedes:` line are never plain links: appending such a
/// line to a body leaves its links as they were.
pub proof fn law_supersedes_line_adds_no_link(body: Seq<char>, line: Seq<char>)
    requires
        !line.contains('\n'),
    ensures
        links_spec(body + seq!['\n'] + supersedes_line_of(line)) == links_spec(body),
{
    let x = supersedes_line_of(line);
    lemma_supersedes_line_of(line);
    lemma_refs_append(body, x, false);
    lemma_refs_one(x, false);
    assert(refs_of(lines(body), false) + Seq::<Seq<char>>::empty() =~= refs_of(lines(body), false));
}

/// The targets of `supersedes: [[x]]`: just `x`.
proof fn lemma_one_supersession(x: Seq<char>)
    requires
        bare_name(x),
        trim(x) == x,
        strip_md(x) == x,
    ensures
        targets_spec(supersedes_line_of(open_link() + x + close_link())) == seq![x],
{
    let line = open_link() + x + close_link();
    let t = supersedes_line_of(line);
    assert(t.len() == 14 + x.len() + 2);
    assert forall|k: int| 0 <= k < x.len() implies t[14 + k] == x[k] && x[k] != '[' && x[k] != ']' by {
        assert(t[14 + k] == x[k]);
        if x[k] == '[' {
            assert(x.contains('['));
        }
        if x[k] == ']' {
            assert(x.contains(']'));
        }
    }
    assert(t.subrange(12, 14) =~= open_link());
    assert forall|k: int| 0 <= k < 12 implies !match_at(t, open_link(), k) by {
        assert(t.subrange(k, k + 2)[0] == t[k]);
    }
    lemma_find_first(t, open_link(), 0, 12);
    let rest = t.subrange(14, t.len() as int);
    assert(rest =~= x + close_link());
    assert(rest.subrange(x.len() as int, x.len() as int + 2) =~= close_link());
    assert forall|k: int| 0 <= k < x.len() implies !match_at(rest, close_link(), k) by {
        assert(rest.subrange(k, k + 2)[0] == rest[k]);
        assert(rest[k] == x[k]);
    }
    lemma_find_first(rest, close_link(), 0, x.len() as int);
    assert(rest.subrange(0, x.len() as int) =~= x);
    assert(t[11] == ' ');
    assert(candidate(t, 12) == Some(x));
    assert forall|j: int| 14 <= j implies !match_at(t, open_link(), j) by {
        if j + 2 <= t.len() {
            assert(t.subrange(j, j + 2)[0] == t[j]);
            if j < 14 + x.len() {
                assert(t[j] == x[j - 14]);
            } else {
                assert(t[j] == ']');
            }
        }
    }
    lemma_find_none(t, open_link(), 14);
    assert(candidates_from(t, 14) =~= Seq::<Seq<char>>::empty());
    assert(candidates_from(t, 0) =~= seq![x]);
    assert(seq![x].drop_last() =~= Seq::<Seq<char>>::empty());
    assert(seq![x].last() == x);
    assert(dedup(Seq::<Seq<char>>::empty()) == Seq::<Seq<char>>::empty());
    assert(!Seq::<Seq<char>>::empty().contains(x));
    assert(dedup(seq![x]) == dedup(seq![x].drop_last()).push(x));
    assert(Seq::<Seq<char>>::empty().push(x) =~= seq![x]);
}

/// Declaring one more supersession on a line of its own appends its target
/// to what the body supersedes, unless it is already there: the list keeps
/// the order of first appearance and holds no repeat.
pub proof fn law_supersedes_append(body: Seq<char>, x: Seq<char>)
    requires
        bare_name(x),
        trim(x) == x,
        !(x.len() >= 3 && x.subrange(x.len() - 3, x.len() as int) == md_ext()),
    ensures
        supersedes_spec(body + seq!['\n'] + supersedes_line_of(open_link() + x + close_link())) == if supersedes_spec(
            body,
        ).contains(x) {
            supersedes_spec(body)
        } else {
            supersedes_spec(body).push(x)
        },
{
    let line = open_link() + x + close_link();
    assert forall|k: int| 0 <= k < line.len() implies line[k] != '\n' by {
        if 2 <= k < 2 + x.len() {
            assert(line[k] == x[k - 2]);
            if x[k - 2] == '\n' {
                assert(x.contains('\n'));
            }
        }
    }
    if line.contains('\n') {
        let k = choose|k: int| 0 <= k < line.len() && line[k] == '\n';
    }
    let t = supersedes_line_of(line);
    lemma_supersedes_line_of(line);
    lemma_one_supersession(x);
    lemma_refs_append(body, t, true);
    lemma_refs_one(t, true);
    let r = refs_of(lines(body), true);
    assert(r + seq![x] =~= r.push(x));
    assert(r.push(x).drop_last() =~= r);
}

} // verus!
