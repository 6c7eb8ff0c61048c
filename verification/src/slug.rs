//! Turning a title into a filename-safe slug.
use vstd::prelude::*;
use crate::query::join_with;

use crate::text::{
    char_is_alphanumeric, char_to_lowercase, chars_of, is_alnum, is_ascii_char, lower_char, push_all, slice_of, string_of,
};

verus! {

/// Longest slug, in characters.
pub const MAX_LEN: usize = 60;

/// Lower-cased alphanumerics with each run of anything else collapsed to one
/// dash, and no dash before the first of them: the slug before it is cut to
/// length. The flag says whether a dash is owed before the next alphanumeric.
pub open spec fn slug_state(s: Seq<char>) -> (Seq<char>, bool)
    decreases s.len(),
{
    if s.len() == 0 {
        (Seq::empty(), false)
    } else {
        let (o, pending) = slug_state(s.drop_last());
        let c = s.last();
        if is_alnum(c) {
            let o2 = if pending && o.len() > 0 {
                o.push('-')
            } else {
                o
            };
            (o2 + lower_char(c), false)
        } else {
            (o, true)
        }
    }
}

/// Bytes `c` takes in UTF-8.
pub open spec fn utf8_width(c: char) -> int {
    if (c as u32) < 0x80 {
        1
    } else if (c as u32) < 0x800 {
        2
    } else if (c as u32) < 0x10000 {
        3
    } else {
        4
    }
}

/// Bytes `s` takes in UTF-8.
pub open spec fn utf8_len(s: Seq<char>) -> int
    decreases s.len(),
{
    if s.len() == 0 {
        0
    } else {
        utf8_len(s.drop_last()) + utf8_width(s.last())
    }
}

/// Index of the last `-` in `s`, if any.
pub open spec fn last_dash(s: Seq<char>) -> Option<int>
    decreases s.len(),
{
    if s.len() == 0 {
        None
    } else if s.last() == '-' {
        Some(s.len() - 1)
    } else {
        last_dash(s.drop_last())
    }
}

/// A slug that is too long, cut to `MAX_LEN` characters, and further back to
/// its last dash when that dash lies more than half way along (counted in
/// bytes, as `str::rfind` counts).
pub open spec fn cut_spec(raw: Seq<char>) -> Seq<char> {
    if raw.len() > MAX_LEN {
        let cut = raw.subrange(0, MAX_LEN as int);
        match last_dash(cut) {
            Some(i) => if utf8_len(cut.subrange(0, i)) > (MAX_LEN / 2) as int {
                cut.subrange(0, i)
            } else {
                cut
            },
            None => cut,
        }
    } else {
        raw
    }
}

/// `untitled`.
pub open spec fn untitled() -> Seq<char> {
    seq!['u', 'n', 't', 'i', 't', 'l', 'e', 'd']
}

/// The slug of a title.
pub open spec fn slug_spec(title: Seq<char>) -> Seq<char> {
    let s = cut_spec(slug_state(title).0);
    if s.len() == 0 {
        untitled()
    } else {
        s
    }
}

proof fn lemma_last_dash(s: Seq<char>)
    ensures
        last_dash(s) matches Some(i) ==> 0 <= i < s.len() && s[i] == '-',
    decreases s.len(),
{
    if s.len() > 0 && s.last() != '-' {
        lemma_last_dash(s.drop_last());
    }
}

/// Dashes only between other characters: none first, none last, never two
/// in a row.
pub open spec fn dash_shaped(s: Seq<char>) -> bool {
    &&& s.len() > 0 ==> s[0] != '-' && s.last() != '-'
    &&& forall|i: int| 0 <= i < s.len() - 1 && #[trigger] s[i] == '-' ==> s[i + 1] != '-'
}

/// Every alphanumeric character of `title` lower-cases to at least one
/// character and to no dash. Proved below for ASCII; beyond it this rests on
/// std's Unicode tables, which the library takes by name.
pub open spec fn lowers_dashless(title: Seq<char>) -> bool {
    forall|i: int|
        0 <= i < title.len() && is_alnum(#[trigger] title[i]) ==> lower_char(title[i]).len() >= 1
            && !lower_char(title[i]).contains('-')
}

/// An ASCII title lower-cases without dashes.
pub proof fn lemma_ascii_lowers_dashless(title: Seq<char>)
    requires
        forall|i: int| 0 <= i < title.len() ==> is_ascii_char(#[trigger] title[i]),
    ensures
        lowers_dashless(title),
{
    assert forall|i: int| 0 <= i < title.len() && is_alnum(#[trigger] title[i]) implies lower_char(
        title[i],
    ).len() >= 1 && !lower_char(title[i]).contains('-') by {
        let c = title[i];
        let l = lower_char(c);
        if l.contains('-') {
            let k = choose|k: int| 0 <= k < l.len() && l[k] == '-';
            assert(l[k] == l[0]);
        }
    }
}

proof fn lemma_shaped_join(a: Seq<char>, l: Seq<char>, dash: bool)
    requires
        dash_shaped(a),
        l.len() >= 1,
        !l.contains('-'),
        dash ==> a.len() > 0,
    ensures
        dash_shaped(if dash {
            a.push('-') + l
        } else {
            a + l
        }),
{
    let m = if dash {
        a.push('-')
    } else {
        a
    };
    let r = m + l;
    assert forall|k: int| 0 <= k < l.len() implies l[k] != '-' by {
        if l[k] == '-' {
            assert(l.contains('-'));
        }
    }
    assert(r.last() == l[l.len() - 1]);
    if r.len() > 0 {
        if a.len() > 0 {
            assert(r[0] == a[0]);
        } else {
            assert(r[0] == l[0]);
        }
    }
    assert forall|i: int| 0 <= i < r.len() - 1 && #[trigger] r[i] == '-' implies r[i + 1] != '-' by {
        if i + 1 >= m.len() {
            assert(r[i + 1] == l[i + 1 - m.len()]);
        } else if dash && i + 1 == a.len() {
            assert(r[i] == a[i]);
            assert(a[a.len() - 1] == a.last());
        } else {
            assert(r[i] == a[i]);
            assert(r[i + 1] == a[i + 1]);
        }
    }
}

/// The raw slug before it is cut: dashes only between words, and empty
/// exactly when the title has no alphanumeric character.
proof fn lemma_slug_state_shape(s: Seq<char>)
    requires
        lowers_dashless(s),
    ensures
        dash_shaped(slug_state(s).0),
        slug_state(s).0.len() == 0 <==> forall|i: int| 0 <= i < s.len() ==> !is_alnum(#[trigger] s[i]),
    decreases s.len(),
{
    if s.len() > 0 {
        let pre = s.drop_last();
        assert forall|i: int| 0 <= i < pre.len() && is_alnum(#[trigger] pre[i]) implies lower_char(
            pre[i],
        ).len() >= 1 && !lower_char(pre[i]).contains('-') by {
            assert(pre[i] == s[i]);
        }
        lemma_slug_state_shape(pre);
        let (o, pending) = slug_state(pre);
        let c = s.last();
        assert(c == s[s.len() - 1]);
        if is_alnum(c) {
            lemma_shaped_join(o, lower_char(c), pending && o.len() > 0);
        } else {
            if forall|j: int| 0 <= j < pre.len() ==> !is_alnum(#[trigger] pre[j]) {
                assert forall|i: int| 0 <= i < s.len() implies !is_alnum(#[trigger] s[i]) by {
                    if i < pre.len() {
                        assert(pre[i] == s[i]);
                    }
                }
            } else {
                let j = choose|j: int| 0 <= j < pre.len() && is_alnum(#[trigger] pre[j]);
                assert(s[j] == pre[j]);
            }
        }
        if is_alnum(c) {
            assert(!(forall|i: int| 0 <= i < s.len() ==> !is_alnum(#[trigger] s[i])));
        }
    }
}

proof fn lemma_prefix_shaped(s: Seq<char>, n: int)
    requires
        dash_shaped(s),
        0 < n <= s.len(),
        s[n - 1] != '-',
    ensures
        dash_shaped(s.subrange(0, n)),
{
    let t = s.subrange(0, n);
    assert(t[0] == s[0]);
    assert(t.last() == s[n - 1]);
    assert forall|i: int| 0 <= i < t.len() - 1 && #[trigger] t[i] == '-' implies t[i + 1] != '-' by {
        assert(t[i] == s[i]);
        assert(t[i + 1] == s[i + 1]);
    }
}

proof fn lemma_utf8_len_bound(s: Seq<char>)
    ensures
        s.len() <= utf8_len(s) <= 4 * s.len(),
    decreases s.len(),
{
    if s.len() > 0 {
        lemma_utf8_len_bound(s.drop_last());
    }
}

/// A slug is never empty, holds at most `MAX_LEN` characters, and has dashes
/// only between words, never two in a row; a title without a letter or digit
/// is `untitled`. This holds wherever the title's characters lower-case to
/// no dash, which `lemma_ascii_lowers_dashless` proves of ASCII.
pub proof fn law_slug_shape(title: Seq<char>)
    requires
        lowers_dashless(title),
    ensures
        0 < slug_spec(title).len() <= MAX_LEN,
        dash_shaped(slug_spec(title)),
        (forall|i: int| 0 <= i < title.len() ==> !is_alnum(#[trigger] title[i])) ==> slug_spec(title)
            == untitled(),
{
    lemma_slug_state_shape(title);
    let raw = slug_state(title).0;
    if raw.len() > MAX_LEN {
        let cut = raw.subrange(0, MAX_LEN as int);
        lemma_last_dash(cut);
        if cut.last() == '-' {
            assert(last_dash(cut) == Some(MAX_LEN - 1));
            lemma_utf8_len_bound(cut.subrange(0, MAX_LEN - 1));
        }
        match last_dash(cut) {
            Some(i) => {
                if utf8_len(cut.subrange(0, i)) > (MAX_LEN / 2) as int {
                    lemma_utf8_len_bound(cut.subrange(0, i));
                    assert(cut[i] == raw[i]);
                    if raw[i - 1] == '-' {
                        assert(raw[i] == '-');
                    }
                    lemma_prefix_shaped(raw, i);
                    assert(cut.subrange(0, i) =~= raw.subrange(0, i));
                } else {
                    assert(raw[MAX_LEN - 1] == cut.last());
                    lemma_prefix_shaped(raw, MAX_LEN as int);
                }
            },
            None => {
                assert(raw[MAX_LEN - 1] == cut.last());
                lemma_prefix_shaped(raw, MAX_LEN as int);
            },
        }
    }
    let u = untitled();
    assert(dash_shaped(u)) by {
        assert forall|i: int| 0 <= i < u.len() - 1 && #[trigger] u[i] == '-' implies u[i + 1] != '-' by {}
    }
}

/// A word lower-cased character by character.
pub open spec fn lower_word(w: Seq<char>) -> Seq<char>
    decreases w.len(),
{
    if w.len() == 0 {
        Seq::empty()
    } else {
        lower_word(w.drop_last()) + lower_char(w.last())
    }
}

/// The maximal runs of alphanumeric characters of `s`, in order, and whether
/// `s` ends inside one.
pub open spec fn alnum_runs(s: Seq<char>) -> (Seq<Seq<char>>, bool)
    decreases s.len(),
{
    if s.len() == 0 {
        (Seq::empty(), false)
    } else {
        let (ws, inside) = alnum_runs(s.drop_last());
        let c = s.last();
        if !is_alnum(c) {
            (ws, false)
        } else if inside {
            (ws.update(ws.len() - 1, ws.last().push(c)), true)
        } else {
            (ws.push(seq![c]), true)
        }
    }
}

/// Each word lower-cased.
pub open spec fn lowered(ws: Seq<Seq<char>>) -> Seq<Seq<char>> {
    Seq::new(ws.len(), |i: int| lower_word(ws[i]))
}

/// The words of a title as its slug joins them, before any cut.
pub open spec fn slug_words(title: Seq<char>) -> Seq<char> {
    join_with(lowered(alnum_runs(title).0), '-')
}

proof fn lemma_join_grow_last(ps: Seq<Seq<char>>, y: Seq<char>)
    requires
        ps.len() > 0,
    ensures
        join_with(ps.update(ps.len() - 1, ps.last() + y), '-') == join_with(ps, '-') + y,
{
    let q = ps.update(ps.len() - 1, ps.last() + y);
    if ps.len() == 1 {
        assert(q[0] == ps[0] + y);
    } else {
        assert(q.drop_last() =~= ps.drop_last());
        assert(q.last() == ps.last() + y);
        assert(join_with(q, '-') == join_with(q.drop_last(), '-').push('-') + q.last());
        assert(join_with(ps.drop_last(), '-').push('-') + (ps.last() + y) =~= (join_with(
            ps.drop_last(),
            '-',
        ).push('-') + ps.last()) + y);
    }
}

proof fn lemma_join_nonempty(ps: Seq<Seq<char>>)
    requires
        ps.len() > 0,
        forall|k: int| 0 <= k < ps.len() ==> (#[trigger] ps[k]).len() >= 1,
    ensures
        join_with(ps, '-').len() >= 1,
    decreases ps.len(),
{
    if ps.len() > 1 {
        assert(ps.last() == ps[ps.len() - 1]);
    }
}

/// The slug of a title, before it is cut, is the title's alphanumeric runs
/// lower-cased and joined with single dashes; the flag owes a dash exactly
/// after a character that ends a run.
proof fn lemma_slug_state_words(s: Seq<char>)
    requires
        lowers_dashless(s),
    ensures
        slug_state(s).0 == slug_words(s),
        slug_state(s).1 == (s.len() > 0 && !alnum_runs(s).1),
        alnum_runs(s).1 ==> alnum_runs(s).0.len() > 0,
        forall|k: int| 0 <= k < alnum_runs(s).0.len() ==> (#[trigger] lowered(alnum_runs(s).0)[k]).len() >= 1,
        alnum_runs(s).0.len() == 0 <==> forall|i: int| 0 <= i < s.len() ==> !is_alnum(#[trigger] s[i]),
    decreases s.len(),
{
    if s.len() == 0 {
        assert(lowered(Seq::<Seq<char>>::empty()) =~= Seq::<Seq<char>>::empty());
    } else {
        let pre = s.drop_last();
        assert forall|i: int| 0 <= i < pre.len() && is_alnum(#[trigger] pre[i]) implies lower_char(
            pre[i],
        ).len() >= 1 && !lower_char(pre[i]).contains('-') by {
            assert(pre[i] == s[i]);
        }
        lemma_slug_state_words(pre);
        let (ws, inside) = alnum_runs(pre);
        let (o, pending) = slug_state(pre);
        let c = s.last();
        assert(c == s[s.len() - 1]);
        let lw = lowered(ws);
        if !is_alnum(c) {
            if forall|j: int| 0 <= j < pre.len() ==> !is_alnum(#[trigger] pre[j]) {
                assert forall|i: int| 0 <= i < s.len() implies !is_alnum(#[trigger] s[i]) by {
                    if i < pre.len() {
                        assert(pre[i] == s[i]);
                    }
                }
            } else {
                let j = choose|j: int| 0 <= j < pre.len() && is_alnum(#[trigger] pre[j]);
                assert(s[j] == pre[j]);
            }
        } else {
            assert(!(forall|i: int| 0 <= i < s.len() ==> !is_alnum(#[trigger] s[i])));
            let lc = lower_char(c);
            if inside {
                let w = ws.last();
                let ws2 = ws.update(ws.len() - 1, w.push(c));
                assert(w.push(c).drop_last() =~= w);
                assert(lower_word(w.push(c)) == lower_word(w) + lc);
                assert(lowered(ws2) =~= lw.update(lw.len() - 1, lw.last() + lc));
                lemma_join_grow_last(lw, lc);
                assert forall|k: int| 0 <= k < ws2.len() implies (#[trigger] lowered(ws2)[k]).len() >= 1 by {
                    if k < ws2.len() - 1 {
                        assert(lowered(ws2)[k] == lw[k]);
                    }
                }
            } else {
                let ws2 = ws.push(seq![c]);
                assert(seq![c].drop_last() =~= Seq::<char>::empty());
                assert(seq![c].last() == c);
                assert(lower_word(Seq::<char>::empty()) == Seq::<char>::empty());
                assert(lower_word(seq![c]) == lower_word(seq![c].drop_last()) + lower_char(seq![c].last()));
                assert(lower_word(seq![c]) =~= lc);
                assert(lowered(ws2) =~= lw.push(lc));
                if ws.len() == 0 {
                    assert(o.len() == 0);
                    assert(lowered(ws2).len() == 1);
                    assert(o + lc =~= lc);
                } else {
                    lemma_join_nonempty(lw);
                    assert(lowered(ws2).drop_last() =~= lw);
                    assert(pending);
                }
                assert forall|k: int| 0 <= k < ws2.len() implies (#[trigger] lowered(ws2)[k]).len() >= 1 by {
                    if k < ws2.len() - 1 {
                        assert(lowered(ws2)[k] == lw[k]);
                    }
                }
            }
        }
    }
}

/// A title's slug is its alphanumeric runs, lower-cased and joined with
/// single dashes, whenever they fit in `MAX_LEN` characters; `untitled` when
/// it has none. This holds wherever the title's characters lower-case to no
/// dash, which `lemma_ascii_lowers_dashless` proves of ASCII, where
/// lower-casing is `to_ascii_lowercase`.
pub proof fn law_slug_words(title: Seq<char>)
    requires
        lowers_dashless(title),
        slug_words(title).len() <= MAX_LEN,
    ensures
        slug_spec(title) == if alnum_runs(title).0.len() == 0 {
            untitled()
        } else {
            slug_words(title)
        },
{
    lemma_slug_state_words(title);
    if alnum_runs(title).0.len() > 0 {
        lemma_join_nonempty(lowered(alnum_runs(title).0));
    } else {
        assert(lowered(alnum_runs(title).0) =~= Seq::<Seq<char>>::empty());
    }
}

/// Turn a title into a filename-safe slug.
///
/// Lowercased, non-alphanumerics collapsed to single dashes, trimmed to whole
/// words within `MAX_LEN`. Non-ASCII letters are kept if they are alphanumeric
/// in Unicode terms, so Polish titles slug sensibly.
pub fn slugify(title: &str) -> (r: String)
    ensures
        r@ == slug_spec(title@),
        0 < r@.len() <= MAX_LEN,
{
    let t = chars_of(title);
    let mut out: Vec<char> = Vec::new();
    let mut pending = false;
    let mut i: usize = 0;
    while i < t.len()
        invariant
            i <= t@.len(),
            slug_state(t@.subrange(0, i as int)) == (out@, pending),
        decreases t.len() - i,
    {
        let ch = t[i];
        proof {
            let s = t@.subrange(0, i + 1);
            assert(s.drop_last() =~= t@.subrange(0, i as int));
            assert(s.last() == ch);
        }
        if char_is_alphanumeric(ch) {
            if pending && out.len() > 0 {
                out.push('-');
            }
            pending = false;
            let low = char_to_lowercase(ch);
            push_all(&mut out, low.as_slice());
        } else {
            pending = true;
        }
        i += 1;
    }
    assert(t@.subrange(0, t@.len() as int) =~= t@);
    let cut = cut_vec(out);
    if cut.len() == 0 {
        let u = vec!['u', 'n', 't', 'i', 't', 'l', 'e', 'd'];
        assert(u@ =~= untitled());
        string_of(u.as_slice())
    } else {
        string_of(cut.as_slice())
    }
}

fn cut_vec(raw: Vec<char>) -> (r: Vec<char>)
    ensures
        r@ == cut_spec(raw@),
        r@.len() <= MAX_LEN,
{
    if raw.len() <= MAX_LEN {
        return raw;
    }
    let cut = slice_of(raw.as_slice(), 0, MAX_LEN);
    let mut k: usize = MAX_LEN;
    assert(cut@.subrange(0, MAX_LEN as int) =~= cut@);
    while k > 0 && cut[k - 1] != '-'
        invariant
            k <= MAX_LEN == cut@.len(),
            last_dash(cut@.subrange(0, k as int)) == last_dash(cut@),
        decreases k,
    {
        assert(cut@.subrange(0, k as int).drop_last() =~= cut@.subrange(0, k - 1));
        k -= 1;
    }
    assert(cut@.subrange(0, MAX_LEN as int) =~= cut@);
    if k == 0 {
        assert(last_dash(cut@.subrange(0, 0)) is None);
        return cut;
    }
    let i = k - 1;
    assert(last_dash(cut@) == Some(i as int));
    let mut bytes: usize = 0;
    let mut j: usize = 0;
    while j < i
        invariant
            j <= i < MAX_LEN == cut@.len(),
            bytes == utf8_len(cut@.subrange(0, j as int)),
            bytes <= 4 * j,
        decreases i - j,
    {
        let c = cut[j];
        let w: usize = if (c as u32) < 0x80 {
            1
        } else if (c as u32) < 0x800 {
            2
        } else if (c as u32) < 0x10000 {
            3
        } else {
            4
        };
        assert(cut@.subrange(0, j + 1).drop_last() =~= cut@.subrange(0, j as int));
        bytes = bytes + w;
        j += 1;
    }
    if bytes > MAX_LEN / 2 {
        slice_of(cut.as_slice(), 0, i)
    } else {
        cut
    }
}

} // verus!
