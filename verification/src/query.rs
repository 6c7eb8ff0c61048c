//! Turning what someone typed into a search.
//!
//! Search text is typed fast and mid-thought, so it will contain quotes,
//! hyphens, colons and stray punctuation, all of which are operators in FTS5
//! and would otherwise be a syntax error instead of results. Every term is
//! therefore reduced to letters, digits and `_`, quoted, and given a prefix
//! `*`. `#tag`s and `since:` / `before:` bounds narrow a search.
use vstd::prelude::*;
use crate::number::{parse_i32, parse_u32, parsed_i32, parsed_u32};
use crate::stamp::{
    date_opt, day_before, days_back, months_back, pred, sub_days, sub_months, today, valid_day, ymd,
    Day,
};
use crate::text::{
    char_is_alphabetic, char_is_alphanumeric, chars_of, dedup, has_prefix, is_alnum, is_alpha,
    lower_str, push_all, push_new, same_chars, slice_of, starts_with, str_to_lowercase, string_of,
    views, words, words_of,
};

verus! {

// ---------------------------------------------------------------------------
// Full-text terms.
// ---------------------------------------------------------------------------

/// What a search term keeps: letters and digits (as `char::is_alphanumeric`
/// has them) and `_`.
pub open spec fn term_char(c: char) -> bool {
    is_alnum(c) || c == '_'
}

/// The characters of `w` a term keeps, in order.
pub open spec fn term_of(w: Seq<char>) -> Seq<char>
    decreases w.len(),
{
    if w.len() == 0 {
        Seq::empty()
    } else if term_char(w.last()) {
        term_of(w.drop_last()).push(w.last())
    } else {
        term_of(w.drop_last())
    }
}

/// The characters a search term is made of: letters, digits and `_`.
pub open spec fn kept_in_terms() -> spec_fn(char) -> bool {
    |c: char| is_alnum(c) || c == '_'
}

/// A term is its word with exactly the letters, digits and `_` kept, in
/// order: nothing else is kept and none of these is dropped.
pub proof fn law_term_keeps(w: Seq<char>)
    ensures
        term_of(w) == w.filter(kept_in_terms()),
    decreases w.len(),
{
    reveal(Seq::filter);
    if w.len() > 0 {
        law_term_keeps(w.drop_last());
    }
}

/// A term as FTS5 reads it literally, matching any word it begins.
pub open spec fn quoted(t: Seq<char>) -> Seq<char> {
    seq!['"'] + t + seq!['"', '*']
}

/// The quoted terms of the words that keep anything.
pub open spec fn fts_terms(ws: Seq<Seq<char>>) -> Seq<Seq<char>>
    decreases ws.len(),
{
    if ws.len() == 0 {
        Seq::empty()
    } else if term_of(ws.last()).len() == 0 {
        fts_terms(ws.drop_last())
    } else {
        fts_terms(ws.drop_last()).push(quoted(term_of(ws.last())))
    }
}

/// Pieces joined with `sep` between them.
pub open spec fn join_with(ps: Seq<Seq<char>>, sep: char) -> Seq<char>
    decreases ps.len(),
{
    if ps.len() == 0 {
        Seq::empty()
    } else if ps.len() == 1 {
        ps[0]
    } else {
        join_with(ps.drop_last(), sep).push(sep) + ps.last()
    }
}

/// The FTS5 query for `input`: its terms, space between them (an implicit
/// AND, so more words narrow rather than widen); nothing when no word keeps
/// a character.
pub open spec fn fts_query(input: Seq<char>) -> Option<Seq<char>> {
    let ts = fts_terms(words(input));
    if ts.len() == 0 {
        None
    } else {
        Some(join_with(ts, ' '))
    }
}

/// The characters a query is made of: none of them is an FTS5 operator
/// other than the quotes and prefix stars the library writes itself.
pub open spec fn fts_safe(c: char) -> bool {
    c == '"' || c == '*' || c == ' ' || term_char(c)
}

proof fn lemma_term_safe(w: Seq<char>)
    ensures
        forall|i: int| 0 <= i < term_of(w).len() ==> term_char(#[trigger] term_of(w)[i]),
    decreases w.len(),
{
    if w.len() > 0 {
        lemma_term_safe(w.drop_last());
        let p = term_of(w.drop_last());
        assert forall|i: int| 0 <= i < term_of(w).len() implies term_char(#[trigger] term_of(w)[i]) by {
            if i < p.len() {
                assert(term_of(w)[i] == p[i]);
            }
        }
    }
}

proof fn lemma_terms_safe(ws: Seq<Seq<char>>)
    ensures
        forall|k: int, i: int|
            0 <= k < fts_terms(ws).len() && 0 <= i < fts_terms(ws)[k].len() ==> fts_safe(
                #[trigger] fts_terms(ws)[k][i],
            ),
    decreases ws.len(),
{
    if ws.len() > 0 {
        lemma_terms_safe(ws.drop_last());
        lemma_term_safe(ws.last());
        let t = term_of(ws.last());
        assert forall|i: int| 0 <= i < quoted(t).len() implies fts_safe(#[trigger] quoted(t)[i]) by {
            if 1 <= i < t.len() + 1 {
                assert(quoted(t)[i] == t[i - 1]);
            }
        }
        let p = fts_terms(ws.drop_last());
        assert forall|k: int, i: int|
            0 <= k < fts_terms(ws).len() && 0 <= i < fts_terms(ws)[k].len() implies fts_safe(
            #[trigger] fts_terms(ws)[k][i],
        ) by {
            if k < p.len() {
                assert(fts_terms(ws)[k] == p[k]);
            } else {
                assert(fts_terms(ws)[k] == quoted(t));
            }
        }
    }
}

proof fn lemma_join_safe(ps: Seq<Seq<char>>)
    requires
        forall|k: int, i: int| 0 <= k < ps.len() && 0 <= i < ps[k].len() ==> fts_safe(#[trigger] ps[k][i]),
    ensures
        forall|i: int| 0 <= i < join_with(ps, ' ').len() ==> fts_safe(#[trigger] join_with(ps, ' ')[i]),
    decreases ps.len(),
{
    if ps.len() > 1 {
        let a = ps.drop_last();
        assert forall|k: int, i: int| 0 <= k < a.len() && 0 <= i < a[k].len() implies fts_safe(
            #[trigger] a[k][i],
        ) by {
            assert(a[k] == ps[k]);
        }
        lemma_join_safe(a);
        let j = join_with(a, ' ');
        assert forall|i: int| 0 <= i < join_with(ps, ' ').len() implies fts_safe(
            #[trigger] join_with(ps, ' ')[i],
        ) by {
            if i < j.len() {
                assert(join_with(ps, ' ')[i] == j[i]);
            } else if i > j.len() {
                assert(join_with(ps, ' ')[i] == ps.last()[i - j.len() - 1]);
                assert(ps.last() == ps[ps.len() - 1]);
            }
        }
    } else if ps.len() == 1 {
        assert(join_with(ps, ' ') == ps[0]);
    }
}

/// The characters of `w` a term keeps.
fn term_chars(w: &[char]) -> (r: Vec<char>)
    ensures
        r@ == term_of(w@),
{
    let mut out: Vec<char> = Vec::new();
    let mut i: usize = 0;
    while i < w.len()
        invariant
            i <= w@.len(),
            out@ == term_of(w@.subrange(0, i as int)),
        decreases w.len() - i,
    {
        let c = w[i];
        assert(w@.subrange(0, i + 1).drop_last() =~= w@.subrange(0, i as int));
        if char_is_alphanumeric(c) || c == '_' {
            out.push(c);
        }
        i += 1;
    }
    assert(w@.subrange(0, w@.len() as int) =~= w@);
    out
}

/// What was typed, as an FTS5 query: `None` when there is nothing to search
/// for, which callers read as "show recent notes" rather than "no results".
pub fn to_fts_query(input: &str) -> (r: Option<String>)
    ensures
        r is None <==> fts_query(input@) is None,
        r matches Some(q) ==> fts_query(input@) == Some(q@),
        r matches Some(q) ==> forall|i: int| 0 <= i < q@.len() ==> fts_safe(#[trigger] q@[i]),
{
    let chars = chars_of(input);
    let ws = words_of(chars.as_slice());
    let ghost all = views(ws@);
    assert(all =~= words(input@));
    let mut out: Vec<char> = Vec::new();
    let mut count: usize = 0;
    let mut i: usize = 0;
    while i < ws.len()
        invariant
            i <= ws@.len(),
            all == views(ws@),
            all =~= words(input@),
            count == fts_terms(all.subrange(0, i as int)).len(),
            count <= i,
            out@ == join_with(fts_terms(all.subrange(0, i as int)), ' '),
        decreases ws.len() - i,
    {
        let t = term_chars(ws[i].as_slice());
        let ghost pre = all.subrange(0, i as int);
        assert(all.subrange(0, i + 1).drop_last() =~= pre);
        assert(all.subrange(0, i + 1).last() == ws@[i as int]@);
        if t.len() > 0 {
            let ghost ts = fts_terms(pre);
            if count > 0 {
                out.push(' ');
            }
            out.push('"');
            push_all(&mut out, t.as_slice());
            out.push('"');
            out.push('*');
            proof {
                let ts2 = ts.push(quoted(t@));
                assert(ts2.drop_last() =~= ts);
                if ts.len() == 0 {
                    assert(out@ =~= join_with(ts2, ' '));
                } else {
                    assert(out@ =~= join_with(ts2, ' '));
                }
            }
            count += 1;
        }
        i += 1;
    }
    assert(all.subrange(0, ws@.len() as int) =~= all);
    proof {
        lemma_terms_safe(all);
        lemma_join_safe(fts_terms(all));
    }
    if count == 0 {
        None
    } else {
        Some(string_of(out.as_slice()))
    }
}

// ---------------------------------------------------------------------------
// Dates typed into a search.
// ---------------------------------------------------------------------------

/// `s` split at every `c`, as `str::split` splits it: one more piece than
/// there are separators, empty pieces kept.
pub open spec fn split_on(s: Seq<char>, c: char) -> Seq<Seq<char>>
    decreases s.len(),
{
    if s.len() == 0 {
        seq![Seq::empty()]
    } else if s.last() == c {
        split_on(s.drop_last(), c).push(Seq::empty())
    } else {
        let p = split_on(s.drop_last(), c);
        p.update(p.len() - 1, p.last().push(s.last()))
    }
}

proof fn lemma_split_nonempty(s: Seq<char>, c: char)
    ensures
        split_on(s, c).len() >= 1,
    decreases s.len(),
{
    if s.len() > 0 {
        lemma_split_nonempty(s.drop_last(), c);
    }
}

/// A count followed by `unit`: the number, if it reads as a `u32`.
pub open spec fn count_of(v: Seq<char>, unit: char) -> Option<u32> {
    if v.len() > 0 && v.last() == unit {
        parsed_u32(v.drop_last())
    } else {
        None
    }
}

/// A date written into a search, resolved against `today`: `today`,
/// `yesterday`, a count of days, weeks or calendar months back (`7d`, `2w`,
/// `3m`), or a year, a month or a day (`2026`, `2026-03`, `2026-03-11`), a
/// year or month naming its first day.
pub open spec fn date_value(v: Seq<char>, today: Day) -> Option<Day> {
    if v == "today"@ {
        Some(today)
    } else if v == "yesterday"@ {
        day_before(today)
    } else if count_of(v, 'd') is Some {
        days_back(today, count_of(v, 'd').unwrap() as int)
    } else if count_of(v, 'w') is Some {
        days_back(today, count_of(v, 'w').unwrap() as int * 7)
    } else if count_of(v, 'm') is Some {
        months_back(today, count_of(v, 'm').unwrap() as int)
    } else {
        let p = split_on(v, '-');
        if p.len() == 1 {
            match parsed_i32(p[0]) {
                Some(y) => date_opt(y as int, 1, 1),
                None => None,
            }
        } else if p.len() == 2 {
            match (parsed_i32(p[0]), parsed_u32(p[1])) {
                (Some(y), Some(m)) => date_opt(y as int, m as int, 1),
                _ => None,
            }
        } else if p.len() == 3 {
            match (parsed_i32(p[0]), parsed_u32(p[1]), parsed_u32(p[2])) {
                (Some(y), Some(m), Some(d)) => date_opt(y as int, m as int, d as int),
                _ => None,
            }
        } else {
            None
        }
    }
}

/// `s` split at every `c`.
fn split_chars(s: &[char], c: char) -> (r: Vec<Vec<char>>)
    ensures
        views(r@) == split_on(s@, c),
{
    let mut out: Vec<Vec<char>> = Vec::new();
    out.push(Vec::new());
    let mut i: usize = 0;
    assert(s@.subrange(0, 0) =~= Seq::<char>::empty());
    assert(views(out@) =~= split_on(Seq::<char>::empty(), c));
    while i < s.len()
        invariant
            i <= s@.len(),
            views(out@) == split_on(s@.subrange(0, i as int), c),
            out@.len() >= 1,
        decreases s.len() - i,
    {
        let ghost pre = s@.subrange(0, i as int);
        assert(s@.subrange(0, i + 1).drop_last() =~= pre);
        assert(s@.subrange(0, i + 1).last() == s@[i as int]);
        if s[i] == c {
            out.push(Vec::new());
            assert(views(out@) =~= split_on(s@.subrange(0, i + 1), c));
        } else {
            let mut piece = out.pop().unwrap();
            piece.push(s[i]);
            out.push(piece);
            assert(views(out@) =~= split_on(s@.subrange(0, i + 1), c));
        }
        i += 1;
    }
    assert(s@.subrange(0, s@.len() as int) =~= s@);
    out
}

/// A count before `unit`, if `v` ends with it.
fn count_chars(v: &[char], unit: char) -> (r: Option<u32>)
    ensures
        r == count_of(v@, unit),
{
    let n = v.len();
    if n > 0 && v[n - 1] == unit {
        let head = slice_of(v, 0, n - 1);
        assert(head@ =~= v@.drop_last());
        parse_u32(string_of(head.as_slice()).as_str())
    } else {
        None
    }
}

/// A date written into a search, resolved against `today`.
pub fn parse_date(value: &str, today: Day) -> (r: Option<Day>)
    requires
        valid_day(today),
    ensures
        r == date_value(value@, today),
{
    let v = chars_of(value);
    parse_date_chars(v.as_slice(), today)
}

fn parse_date_chars(v: &[char], today: Day) -> (r: Option<Day>)
    requires
        valid_day(today),
    ensures
        r == date_value(v@, today),
{
    let word_today = chars_of("today");
    if same_chars(v, word_today.as_slice()) {
        return Some(today);
    }
    let word_yesterday = chars_of("yesterday");
    if same_chars(v, word_yesterday.as_slice()) {
        return pred(today);
    }
    if let Some(n) = count_chars(v, 'd') {
        return sub_days(today, n as u64);
    }
    if let Some(n) = count_chars(v, 'w') {
        return sub_days(today, n as u64 * 7);
    }
    if let Some(n) = count_chars(v, 'm') {
        return sub_months(today, n);
    }
    let parts = split_chars(v, '-');
    proof {
        lemma_split_nonempty(v@, '-');
    }
    assert(views(parts@).len() == parts@.len());
    if parts.len() == 1 {
        assert(parts@[0]@ == split_on(v@, '-')[0]);
        match parse_i32(string_of(parts[0].as_slice()).as_str()) {
            Some(y) => ymd(y, 1, 1),
            None => None,
        }
    } else if parts.len() == 2 {
        assert(parts@[0]@ == split_on(v@, '-')[0]);
        assert(parts@[1]@ == split_on(v@, '-')[1]);
        let y = parse_i32(string_of(parts[0].as_slice()).as_str());
        let m = parse_u32(string_of(parts[1].as_slice()).as_str());
        match (y, m) {
            (Some(y), Some(m)) => ymd(y, m, 1),
            _ => None,
        }
    } else if parts.len() == 3 {
        assert(parts@[0]@ == split_on(v@, '-')[0]);
        assert(parts@[1]@ == split_on(v@, '-')[1]);
        assert(parts@[2]@ == split_on(v@, '-')[2]);
        let y = parse_i32(string_of(parts[0].as_slice()).as_str());
        let m = parse_u32(string_of(parts[1].as_slice()).as_str());
        let d = parse_u32(string_of(parts[2].as_slice()).as_str());
        match (y, m, d) {
            (Some(y), Some(m), Some(d)) => ymd(y, m, d),
            _ => None,
        }
    } else {
        None
    }
}

// ---------------------------------------------------------------------------
// Filters and text.
// ---------------------------------------------------------------------------

/// `s` without trailing `-`, `_` and `/`: punctuation after a tag belongs to
/// the sentence.
pub open spec fn tag_trim_end(s: Seq<char>) -> Seq<char>
    decreases s.len(),
{
    if s.len() > 0 && (s.last() == '-' || s.last() == '_' || s.last() == '/') {
        tag_trim_end(s.drop_last())
    } else {
        s
    }
}

/// The tag a token filters on: what follows its `#`, when that starts with
/// a letter, trimmed of trailing punctuation and lower-cased, which is how the
/// index stores tags. `#404` is a number being looked for, not a filter.
pub open spec fn tag_filter(tok: Seq<char>) -> Option<Seq<char>> {
    if tok.len() > 1 && tok[0] == '#' && is_alpha(tok[1]) {
        Some(lower_str(tag_trim_end(tok.drop_first())))
    } else {
        None
    }
}

/// The date a token bounds the search with, if it starts with `prefix` and
/// what follows is a date.
pub open spec fn bound(tok: Seq<char>, prefix: Seq<char>, today: Day) -> Option<Day> {
    if starts_with(tok, prefix) {
        date_value(tok.subrange(prefix.len() as int, tok.len() as int), today)
    } else {
        None
    }
}

/// Tokens read in order: the tag names offered, the words left for the text,
/// and the last `since:` and `before:` bounds understood. A bound that cannot
/// be understood is searched for as text: silently returning nothing is worse
/// than searching for what was typed.
pub open spec fn scan(toks: Seq<Seq<char>>, today: Day) -> (
    Seq<Seq<char>>,
    Seq<Seq<char>>,
    Option<Day>,
    Option<Day>,
)
    decreases toks.len(),
{
    if toks.len() == 0 {
        (Seq::empty(), Seq::empty(), None, None)
    } else {
        let st = scan(toks.drop_last(), today);
        let t = toks.last();
        if bound(t, "since:"@, today) is Some {
            (st.0, st.1, bound(t, "since:"@, today), st.3)
        } else if bound(t, "before:"@, today) is Some {
            (st.0, st.1, st.2, bound(t, "before:"@, today))
        } else if tag_filter(t) is Some {
            (st.0.push(tag_filter(t).unwrap()), st.1, st.2, st.3)
        } else {
            (st.0, st.1.push(t), st.2, st.3)
        }
    }
}

/// A search as typed, resolved against `today`: tags without repeats, the
/// bounds, and the full-text query of what is left.
pub open spec fn query_of(input: Seq<char>, today: Day) -> (
    Seq<Seq<char>>,
    Option<Day>,
    Option<Day>,
    Option<Seq<char>>,
) {
    let st = scan(words(input), today);
    (dedup(st.0), st.2, st.3, fts_query(join_with(st.1, ' ')))
}

/// A search as typed: `#tag`s and `since:`/`before:` narrow it, the rest is
/// text to match.
#[derive(Debug, Clone, PartialEq, Eq)]
pub struct Query {
    /// Lower-cased and without the `#`, which is how the index stores them.
    pub tags: Vec<String>,
    /// Inclusive lower bound on the note's own calendar date.
    pub since: Option<Day>,
    /// Exclusive upper bound, so `before:2026-03` means "up to March".
    pub before: Option<Day>,
    /// `None` when only filters were typed, which callers read as "everything
    /// matching these" rather than "no results".
    pub text: Option<String>,
}

/// The text of each string.
pub open spec fn strings(v: Seq<String>) -> Seq<Seq<char>> {
    Seq::new(v.len(), |i: int| v[i]@)
}

/// A query's fields, as text.
pub open spec fn query_model(q: Query) -> (
    Seq<Seq<char>>,
    Option<Day>,
    Option<Day>,
    Option<Seq<char>>,
) {
    (
        strings(q.tags@),
        q.since,
        q.before,
        match q.text {
            Some(t) => Some(t@),
            None => None,
        },
    )
}

/// The bound a token sets, if it starts with `prefix`.
fn bound_chars(tok: &[char], prefix: &[char], today: Day) -> (r: Option<Day>)
    requires
        valid_day(today),
    ensures
        r == bound(tok@, prefix@, today),
{
    if has_prefix(tok, prefix) {
        let rest = slice_of(tok, prefix.len(), tok.len());
        parse_date_chars(rest.as_slice(), today)
    } else {
        None
    }
}

/// The tag a token filters on, if it is one.
fn tag_chars(tok: &[char]) -> (r: Option<Vec<char>>)
    ensures
        r is None <==> tag_filter(tok@) is None,
        r matches Some(t) ==> tag_filter(tok@) == Some(t@),
{
    let n = tok.len();
    if n > 1 && tok[0] == '#' && char_is_alphabetic(tok[1]) {
        let mut end = n;
        while end > 1 && (tok[end - 1] == '-' || tok[end - 1] == '_' || tok[end - 1] == '/')
            invariant
                1 <= end <= n == tok@.len(),
                tag_trim_end(tok@.subrange(1, end as int)) == tag_trim_end(tok@.drop_first()),
            decreases end,
        {
            assert(tok@.subrange(1, end as int).drop_last() =~= tok@.subrange(1, end - 1));
            end -= 1;
        }
        assert(tok@.subrange(1, n as int) =~= tok@.drop_first());
        let name = slice_of(tok, 1, end);
        let lower = str_to_lowercase(string_of(name.as_slice()).as_str());
        Some(chars_of(lower.as_str()))
    } else {
        None
    }
}

/// Split what was typed into filters and search text, resolving dates
/// against `today`.
pub fn parse_on(input: &str, today: Day) -> (r: Query)
    requires
        valid_day(today),
    ensures
        query_model(r) == query_of(input@, today),
{
    let chars = chars_of(input);
    let toks = words_of(chars.as_slice());
    let ghost all = views(toks@);
    assert(all =~= words(input@));
    let since_p = chars_of("since:");
    let before_p = chars_of("before:");
    let mut tags: Vec<Vec<char>> = Vec::new();
    let ghost mut offered: Seq<Seq<char>> = Seq::empty();
    let mut ws: Vec<Vec<char>> = Vec::new();
    let mut since: Option<Day> = None;
    let mut before: Option<Day> = None;
    let mut i: usize = 0;
    assert(views(ws@) =~= Seq::<Seq<char>>::empty());
    assert(views(tags@) =~= dedup(offered));
    while i < toks.len()
        invariant
            i <= toks@.len(),
            valid_day(today),
            all == views(toks@),
            since_p@ == "since:"@,
            before_p@ == "before:"@,
            scan(all.subrange(0, i as int), today) == (offered, views(ws@), since, before),
            views(tags@) == dedup(offered),
        decreases toks.len() - i,
    {
        let tok = toks[i].as_slice();
        let ghost pre = all.subrange(0, i as int);
        assert(all.subrange(0, i + 1).drop_last() =~= pre);
        assert(all.subrange(0, i + 1).last() == tok@);
        let s = bound_chars(tok, since_p.as_slice(), today);
        if s.is_some() {
            since = s;
        } else {
            let b = bound_chars(tok, before_p.as_slice(), today);
            if b.is_some() {
                before = b;
            } else {
                match tag_chars(tok) {
                    Some(name) => {
                        let ghost nv = name@;
                        push_new(&mut tags, name, Ghost(offered));
                        proof {
                            offered = offered.push(nv);
                        }
                    },
                    None => {
                        let ghost pw = views(ws@);
                        ws.push(slice_of(tok, 0, tok.len()));
                        assert(tok@.subrange(0, tok@.len() as int) =~= tok@);
                        assert(views(ws@) =~= pw.push(tok@));
                    },
                }
            }
        }
        i += 1;
    }
    assert(all.subrange(0, toks@.len() as int) =~= all);
    let mut joined: Vec<char> = Vec::new();
    let mut k: usize = 0;
    while k < ws.len()
        invariant
            k <= ws@.len(),
            joined@ == join_with(views(ws@).subrange(0, k as int), ' '),
        decreases ws.len() - k,
    {
        let ghost pre = views(ws@).subrange(0, k as int);
        assert(views(ws@).subrange(0, k + 1).drop_last() =~= pre);
        assert(views(ws@).subrange(0, k + 1).last() == ws@[k as int]@);
        if k > 0 {
            joined.push(' ');
        }
        push_all(&mut joined, ws[k].as_slice());
        assert(joined@ =~= join_with(views(ws@).subrange(0, k + 1), ' '));
        k += 1;
    }
    assert(views(ws@).subrange(0, ws@.len() as int) =~= views(ws@));
    let text = to_fts_query(string_of(joined.as_slice()).as_str());
    let mut names: Vec<String> = Vec::new();
    let mut j: usize = 0;
    assert(strings(names@) =~= views(tags@).subrange(0, 0));
    while j < tags.len()
        invariant
            j <= tags@.len(),
            names@.len() == j,
            strings(names@) == views(tags@).subrange(0, j as int),
        decreases tags.len() - j,
    {
        let name = string_of(tags[j].as_slice());
        let ghost before = names@;
        names.push(name);
        assert(names@ == before.push(name));
        assert(strings(names@)[j as int] == views(tags@)[j as int]);
        assert(strings(names@) =~= views(tags@).subrange(0, j + 1));
        j += 1;
    }
    assert(views(tags@).subrange(0, tags@.len() as int) =~= views(tags@));
    Query { tags: names, since, before, text }
}

/// Split what was typed into filters and search text, with dates resolved
/// against today's date on this machine.
pub fn parse(input: &str) -> (r: Query)
    ensures
        exists|t: Day| valid_day(t) && query_model(r) == #[trigger] query_of(input@, t),
{
    let t = today();
    let r = parse_on(input, t);
    assert(valid_day(t) && query_model(r) == query_of(input@, t));
    r
}

/// A search filters on each tag once, however often and in whatever case it
/// was typed.
pub proof fn law_query_tags_distinct(input: Seq<char>, today: Day)
    ensures
        query_of(input, today).0.no_duplicates(),
{
    crate::text::lemma_dedup(scan(words(input), today).0);
}

// ---------------------------------------------------------------------------
// Applying the filters.
// ---------------------------------------------------------------------------

/// Whether a note's tag answers a `#filter`: the tag itself, or anything
/// beneath it, so `#work` matches `#work/kafka` but not `#workshop`.
pub open spec fn tag_answers(filter: Seq<char>, tag: Seq<char>) -> bool {
    tag == filter || starts_with(tag, filter + seq!['/'])
}

/// Whether a note's tag answers a `#filter`, hierarchical tags matching by
/// prefix.
pub fn tag_matches(filter: &str, tag: &str) -> (r: bool)
    ensures
        r == tag_answers(filter@, tag@),
{
    let f = chars_of(filter);
    let t = chars_of(tag);
    if same_chars(t.as_slice(), f.as_slice()) {
        return true;
    }
    let mut p = f;
    p.push('/');
    assert(p@ =~= filter@ + seq!['/']);
    has_prefix(t.as_slice(), p.as_slice())
}

/// `a` is an earlier day than `b`.
pub open spec fn earlier(a: Day, b: Day) -> bool {
    a.year < b.year || (a.year == b.year && (a.month < b.month || (a.month == b.month && a.day < b.day)))
}

/// Whether a day lies in the window the bounds set: on or after `since`,
/// before `before`.
pub open spec fn in_window(day: Day, since: Option<Day>, before: Option<Day>) -> bool {
    &&& since matches Some(s) ==> !earlier(day, s)
    &&& before matches Some(b) ==> earlier(day, b)
}

fn is_earlier(a: Day, b: Day) -> (r: bool)
    ensures
        r == earlier(a, b),
{
    a.year < b.year || (a.year == b.year && (a.month < b.month || (a.month == b.month && a.day < b.day)))
}

/// Some tag of `tags` answers `filter`.
pub open spec fn answered(filter: Seq<char>, tags: Seq<Seq<char>>) -> bool {
    exists|j: int| 0 <= j < tags.len() && #[trigger] tag_answers(filter, tags[j])
}

/// Whether a note with tags `tags`, written on `day`, passes a query's
/// filters: every `#filter` is answered by one of its tags, and the day is
/// in the window, `since:` inclusive and `before:` exclusive.
pub open spec fn admitted(filters: Seq<Seq<char>>, since: Option<Day>, before: Option<Day>, tags: Seq<Seq<char>>, day: Day) -> bool {
    &&& forall|i: int| 0 <= i < filters.len() ==> #[trigger] answered(filters[i], tags)
    &&& in_window(day, since, before)
}

impl Query {
    /// Whether a note with tags `tags`, written on `day`, passes the
    /// query's filters.
    pub fn admits(&self, tags: &Vec<String>, day: Day) -> (r: bool)
        ensures
            r == admitted(strings(self.tags@), self.since, self.before, strings(tags@), day),
    {
        let ghost fs = strings(self.tags@);
        let ghost ts = strings(tags@);
        let mut i: usize = 0;
        while i < self.tags.len()
            invariant
                i <= self.tags@.len(),
                fs == strings(self.tags@),
                ts == strings(tags@),
                forall|k: int| 0 <= k < i ==> #[trigger] answered(fs[k], ts),
            decreases self.tags.len() - i,
        {
            let mut found = false;
            let mut j: usize = 0;
            while j < tags.len()
                invariant
                    j <= tags@.len(),
                    i < self.tags@.len(),
                    fs == strings(self.tags@),
                    ts == strings(tags@),
                    found <==> exists|k: int| 0 <= k < j && #[trigger] tag_answers(fs[i as int], ts[k]),
                decreases tags.len() - j,
            {
                assert(fs[i as int] == self.tags@[i as int]@);
                assert(ts[j as int] == tags@[j as int]@);
                if tag_matches(self.tags[i].as_str(), tags[j].as_str()) {
                    found = true;
                }
                j += 1;
            }
            if !found {
                assert(!answered(fs[i as int], ts));
                return false;
            }
            i += 1;
        }
        let after = match self.since {
            Some(s) => !is_earlier(day, s),
            None => true,
        };
        let until = match self.before {
            Some(b) => is_earlier(day, b),
            None => true,
        };
        after && until
    }
}

} // verus!
