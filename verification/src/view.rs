//! What the window is shown: note views, list rows and image tiles, and the
//! text rules they are built with.
use vstd::prelude::*;
use vstd::string::*;
use base64::Engine;
use crate::index::{link_name, path_stem, Hit, Ref, Shot};
use crate::note::{content_of, join_lines, title_of, Note};
use crate::number::{decimal, decimal_chars, signed_decimal, signed_decimal_chars};
use crate::stamp::{
    format_stamp, formatted, iso_week, iso_week_of, valid_stamp, Stamp, CLOCK, DATE, DATE_MINUTE,
    LONG_DAY, MONTH_YEAR,
};
use crate::store::bare_name;
use crate::text::{
    back_ws_from, chars_of, dedup, ends_with, find_at, find_from, has_prefix, has_suffix, lemma_back_ws, lemma_find_from, lemma_skip_ws, lines, lines_of, match_at, matches_at, push_new, skip_ws_from, slice_of, starts_with, string_of, trim, trim_vec, views,
};

verus! {

// ---------------------------------------------------------------------------
// Links between notes.
// ---------------------------------------------------------------------------

/// `.md`.
pub open spec fn md_suffix() -> Seq<char> {
    seq!['.', 'm', 'd']
}

/// `s` with every trailing `.md` removed, as `str::trim_end_matches(".md")`
/// leaves it.
pub open spec fn strip_md(s: Seq<char>) -> Seq<char>
    decreases s.len(),
{
    if ends_with(s, md_suffix()) {
        strip_md(s.subrange(0, s.len() - 3))
    } else {
        s
    }
}

/// The note a `[[link]]` names: the text trimmed, without `.md`, as Obsidian
/// habits and the library's own copy-link both write it.
pub open spec fn link_target(name: Seq<char>) -> Seq<char> {
    strip_md(trim(name))
}

/// The note name a link asks for, if it is a bare name: a link must not walk
/// out of the notes directory.
pub fn safe_link(name: &str) -> (r: Option<&str>)
    ensures
        r is Some <==> bare_name(link_target(name@)),
        r matches Some(s) ==> s@ == link_target(name@),
{
    let c = chars_of(name);
    let a = skip_ws_from(c.as_slice(), 0);
    proof {
        lemma_skip_ws(c@, 0);
    }
    let rest = slice_of(c.as_slice(), a, c.len());
    let b = back_ws_from(rest.as_slice(), rest.len());
    proof {
        lemma_back_ws(rest@, rest@.len() as int);
    }
    let start = a;
    let mut end = a + b;
    assert(trim(c@) =~= c@.subrange(start as int, end as int));
    let md = chars_of(".md");
    proof {
        reveal_strlit(".md");
    }
    assert(md@ =~= md_suffix());
    loop
        invariant
            start <= end <= c@.len(),
            md@ == md_suffix(),
            strip_md(c@.subrange(start as int, end as int)) == link_target(name@),
            c@ == name@,
        ensures
            start <= end <= c@.len(),
            strip_md(c@.subrange(start as int, end as int)) == link_target(name@),
            !ends_with(c@.subrange(start as int, end as int), md_suffix()),
        decreases end - start,
    {
        let piece = slice_of(c.as_slice(), start, end);
        if !has_suffix(piece.as_slice(), md.as_slice()) {
            break;
        }
        assert(piece@.subrange(0, piece@.len() - 3) =~= c@.subrange(start as int, end - 3));
        end = end - 3;
    }
    let target = slice_of(c.as_slice(), start, end);
    assert(strip_md(target@) == target@);
    let t = string_of(target.as_slice());
    match crate::store::safe_name(t.as_str()) {
        Some(_) => Some(name.substring_char(start, end)),
        None => None,
    }
}

// ---------------------------------------------------------------------------
// Embedded images.
// ---------------------------------------------------------------------------

/// `![[`, which opens an embed.
pub open spec fn embed_open() -> Seq<char> {
    seq!['!', '[', '[']
}

/// `]]`, which closes a link or an embed.
pub open spec fn embed_close() -> Seq<char> {
    seq![']', ']']
}

/// A line that is one embed and nothing else, once trimmed.
pub open spec fn embed_line(line: Seq<char>) -> bool {
    let t = trim(line);
    &&& starts_with(t, embed_open())
    &&& ends_with(t, embed_close())
    &&& !exists|i: int| 1 <= i && #[trigger] match_at(t, embed_open(), i)
}

/// The lines that are not a lone embed.
pub open spec fn kept_lines(ls: Seq<Seq<char>>) -> Seq<Seq<char>>
    decreases ls.len(),
{
    if ls.len() == 0 {
        Seq::empty()
    } else if embed_line(ls.last()) {
        kept_lines(ls.drop_last())
    } else {
        kept_lines(ls.drop_last()).push(ls.last())
    }
}

/// A note's text as the viewer shows it: lines that are nothing but an embed
/// dropped, since the viewer draws those images underneath; an embed used
/// mid-sentence left alone; the whole trimmed.
pub open spec fn shown_text(body: Seq<char>) -> Seq<char> {
    trim(join_lines(kept_lines(lines(body))))
}

/// Whether a line is a lone embed.
fn is_embed_line(line: &[char]) -> (r: bool)
    ensures
        r == embed_line(line@),
{
    let t = trim_vec(line);
    let mut open: Vec<char> = Vec::new();
    open.push('!');
    open.push('[');
    open.push('[');
    let mut close: Vec<char> = Vec::new();
    close.push(']');
    close.push(']');
    assert(open@ =~= embed_open());
    assert(close@ =~= embed_close());
    if !has_prefix(t.as_slice(), open.as_slice()) || !has_suffix(t.as_slice(), close.as_slice()) {
        return false;
    }
    let mut i: usize = 1;
    while i < t.len()
        invariant
            1 <= i,
            open@ == embed_open(),
            t@ == trim(line@),
            forall|k: int| 1 <= k < i ==> !match_at(t@, embed_open(), k),
        decreases t.len() - i,
    {
        if matches_at(t.as_slice(), open.as_slice(), i) {
            assert(match_at(trim(line@), embed_open(), i as int));
            return false;
        }
        i += 1;
    }
    assert forall|k: int| 1 <= k && match_at(t@, embed_open(), k) implies false by {}
    true
}

/// The body without lines that are nothing but an embed.
pub fn without_embed_lines(body: &str) -> (r: String)
    ensures
        r@ == shown_text(body@),
{
    let c = chars_of(body);
    let ls = lines_of(c.as_slice());
    let ghost all = views(ls@);
    assert(all =~= lines(body@));
    let mut joined: Vec<char> = Vec::new();
    let mut count: usize = 0;
    let mut i: usize = 0;
    while i < ls.len()
        invariant
            i <= ls@.len(),
            all == views(ls@),
            joined@ == join_lines(kept_lines(all.subrange(0, i as int))),
            count == kept_lines(all.subrange(0, i as int)).len(),
            count <= i,
        decreases ls.len() - i,
    {
        let ghost pre = all.subrange(0, i as int);
        assert(all.subrange(0, i + 1).drop_last() =~= pre);
        assert(all.subrange(0, i + 1).last() == ls@[i as int]@);
        if !is_embed_line(ls[i].as_slice()) {
            let ghost kept = kept_lines(pre);
            if count > 0 {
                joined.push('\n');
            }
            crate::text::push_all(&mut joined, ls[i].as_slice());
            assert(kept.push(ls@[i as int]@).drop_last() =~= kept);
            assert(joined@ =~= join_lines(kept.push(ls@[i as int]@)));
            count += 1;
        }
        i += 1;
    }
    assert(all.subrange(0, all.len() as int) =~= all);
    let t = trim_vec(joined.as_slice());
    string_of(t.as_slice())
}

/// The names embedded as `![[name]]` from index `i` on, in order: each
/// opening `![[` (searched for past the previous one) with a `]]` after it
/// names what lies between.
pub open spec fn embeds_from(s: Seq<char>, i: int) -> Seq<Seq<char>>
    decreases s.len() + 1 - i,
{
    if 0 <= i <= s.len() {
        match find_from(s, embed_open(), i) {
            Some(k) => {
                proof {
                    lemma_find_from(s, embed_open(), i);
                }
                let start = k + 3;
                let here = match find_from(s, embed_close(), start) {
                    Some(e) => seq![s.subrange(start, e)],
                    None => Seq::empty(),
                };
                here + embeds_from(s, start)
            },
            None => Seq::empty(),
        }
    } else {
        Seq::empty()
    }
}

/// Attachment names embedded as `![[name]]`, in order, without repeats.
pub open spec fn embeds_of(body: Seq<char>) -> Seq<Seq<char>> {
    dedup(embeds_from(body, 0))
}

/// Each embedded image is listed once.
pub proof fn law_embeds_distinct(body: Seq<char>)
    ensures
        embeds_of(body).no_duplicates(),
{
    crate::text::lemma_dedup(embeds_from(body, 0));
}

/// Attachment names embedded as `![[name]]`, in order, without repeats.
pub fn embedded_names(body: &str) -> (r: Vec<String>)
    ensures
        crate::index::texts_of(r@) == embeds_of(body@),
{
    let c = chars_of(body);
    let mut open: Vec<char> = Vec::new();
    open.push('!');
    open.push('[');
    open.push('[');
    let mut close: Vec<char> = Vec::new();
    close.push(']');
    close.push(']');
    assert(open@ =~= embed_open());
    assert(close@ =~= embed_close());
    let mut names: Vec<Vec<char>> = Vec::new();
    let ghost mut offered: Seq<Seq<char>> = Seq::empty();
    let mut i: usize = 0;
    let n = c.len();
    assert(views(names@) =~= dedup(offered));
    loop
        invariant
            i <= c@.len(),
            n == c@.len(),
            c@ == body@,
            open@ == embed_open(),
            close@ == embed_close(),
            offered + embeds_from(c@, i as int) == embeds_from(c@, 0),
            views(names@) == dedup(offered),
        ensures
            views(names@) == dedup(embeds_from(body@, 0)),
        decreases c@.len() + 1 - i,
    {
        match find_at(c.as_slice(), open.as_slice(), i) {
            None => {
                assert(embeds_from(c@, i as int) =~= Seq::<Seq<char>>::empty());
                assert(offered =~= embeds_from(c@, 0));
                break;
            },
            Some(k) => {
                proof {
                    lemma_find_from(c@, embed_open(), i as int);
                }
                assert(match_at(c@, embed_open(), k as int));
                assert(k + 3 <= c@.len());
                let start = k + 3;
                match find_at(c.as_slice(), close.as_slice(), start) {
                    Some(e) => {
                        proof {
                            lemma_find_from(c@, embed_close(), start as int);
                        }
                        let name = slice_of(c.as_slice(), start, e);
                        let ghost nv = name@;
                        push_new(&mut names, name, Ghost(offered));
                        proof {
                            assert(offered + embeds_from(c@, i as int) =~= offered.push(nv)
                                + embeds_from(c@, start as int));
                            offered = offered.push(nv);
                        }
                    },
                    None => {
                        assert(offered + embeds_from(c@, i as int) =~= offered + embeds_from(
                            c@,
                            start as int,
                        ));
                    },
                }
                i = start;
            },
        }
    }
    let mut out: Vec<String> = Vec::new();
    let mut j: usize = 0;
    assert(crate::index::texts_of(out@) =~= views(names@).subrange(0, 0));
    while j < names.len()
        invariant
            j <= names@.len(),
            out@.len() == j,
            crate::index::texts_of(out@) == views(names@).subrange(0, j as int),
        decreases names.len() - j,
    {
        let s = string_of(names[j].as_slice());
        let ghost pre = out@;
        out.push(s);
        assert(out@ == pre.push(s));
        assert(crate::index::texts_of(out@) =~= views(names@).subrange(0, j + 1));
        j += 1;
    }
    assert(views(names@).subrange(0, names@.len() as int) =~= views(names@));
    out
}

// ---------------------------------------------------------------------------
// Text for a query string, and images inlined.
// ---------------------------------------------------------------------------

/// Bytes a query string carries as they are: ASCII letters, digits, `-`,
/// `_`, `.` and `~`.
pub open spec fn unreserved(b: u8) -> bool {
    (65 <= b <= 90) || (97 <= b <= 122) || (48 <= b <= 57) || b == 45 || b == 95 || b == 46 || b
        == 126
}

/// An upper-case hexadecimal digit for `d` below sixteen.
pub open spec fn hex_upper(d: int) -> char {
    if d < 10 {
        (48 + d) as char
    } else {
        (55 + d) as char
    }
}

/// A byte as a query string carries it: itself if unreserved, else `%` and
/// two upper-case hexadecimal digits.
pub open spec fn escaped_byte(b: u8) -> Seq<char> {
    if unreserved(b) {
        seq![b as char]
    } else {
        seq!['%', hex_upper(b as int / 16), hex_upper(b as int % 16)]
    }
}

/// Bytes as a query string carries them.
pub open spec fn escaped(bs: Seq<u8>) -> Seq<char>
    decreases bs.len(),
{
    if bs.len() == 0 {
        Seq::empty()
    } else {
        escaped(bs.drop_last()) + escaped_byte(bs.last())
    }
}

/// The characters an escaped text is made of.
pub open spec fn url_char(c: char) -> bool {
    ('A' <= c && c <= 'Z') || ('a' <= c && c <= 'z') || ('0' <= c && c <= '9') || c == '-' || c
        == '_' || c == '.' || c == '~' || c == '%'
}

fn hex_digit(d: u8) -> (r: char)
    requires
        d < 16,
    ensures
        r == hex_upper(d as int),
        url_char(r),
{
    if d < 10 {
        (48u8 + d) as char
    } else {
        (55u8 + d) as char
    }
}

/// Enough escaping for a filename in a query string: attachment names are
/// `date-hash.webp`, but a hand-edited note can say anything.
pub fn urlencode(s: &str) -> (r: String)
    ensures
        r@ == escaped(s.spec_bytes()),
        forall|i: int| 0 <= i < r@.len() ==> url_char(#[trigger] r@[i]),
{
    let bytes = s.as_bytes();
    let n = bytes.len();
    let mut out: Vec<char> = Vec::new();
    let mut i: usize = 0;
    while i < n
        invariant
            i <= n == bytes@.len(),
            bytes@ == s.spec_bytes(),
            out@ == escaped(bytes@.subrange(0, i as int)),
            forall|k: int| 0 <= k < out@.len() ==> url_char(#[trigger] out@[k]),
        decreases n - i,
    {
        let b = bytes[i];
        assert(bytes@.subrange(0, i + 1).drop_last() =~= bytes@.subrange(0, i as int));
        let ghost pre = out@;
        if (65 <= b && b <= 90) || (97 <= b && b <= 122) || (48 <= b && b <= 57) || b == 45 || b
            == 95 || b == 46 || b == 126 {
            out.push(b as char);
        } else {
            out.push('%');
            out.push(hex_digit(b / 16));
            out.push(hex_digit(b % 16));
        }
        assert(out@ =~= pre + escaped_byte(b));
        i += 1;
    }
    assert(bytes@.subrange(0, n as int) =~= bytes@);
    string_of(out.as_slice())
}

/// Standard base64 of some bytes.
pub uninterp spec fn base64_of(bytes: Seq<u8>) -> Seq<char>;

/// Calls `encode` of base64's `general_purpose::STANDARD` engine; the text is
/// named.
#[verifier::external_body]
fn base64_encode(bytes: &[u8]) -> (r: String)
    ensures
        r@ == base64_of(bytes@),
{
    base64::engine::general_purpose::STANDARD.encode(bytes)
}

/// An image inlined as a `data:` URL. Thumbnails are a few kilobytes, so this
/// costs less than opening the webview's asset protocol to the whole vault.
pub fn data_url(bytes: &[u8]) -> (r: String)
    ensures
        r@ == "data:image/webp;base64,"@ + base64_of(bytes@),
{
    let mut out = chars_of("data:image/webp;base64,");
    let b = base64_encode(bytes);
    crate::text::push_str(&mut out, b.as_str());
    string_of(out.as_slice())
}

// ---------------------------------------------------------------------------
// Views.
// ---------------------------------------------------------------------------

/// An image stored and ready to embed.
#[derive(Debug, Clone, PartialEq, Eq)]
pub struct Pasted {
    /// Filename to write into the note as `![[name]]`.
    pub name: String,
    /// The thumbnail, as a data URL. `None` when the image itself is gone: the
    /// viewer draws a marked gap for it, since an embed that silently
    /// vanishes looks like a note that never had a picture.
    pub thumb: Option<String>,
}

/// Another note pointing at the one being read.
#[derive(Debug, Clone, PartialEq, Eq)]
pub struct RefView {
    pub name: String,
    pub title: String,
    pub when: String,
}

/// A search result as the list shows it.
#[derive(Debug, Clone, PartialEq, Eq)]
pub struct HitView {
    pub path: String,
    /// The `[[link]]` target for this note.
    pub name: String,
    pub title: String,
    /// Formatted for display; the page does no date arithmetic.
    pub when: String,
    pub snippet: String,
}

/// One row of the timeline, with the heading it goes under at each grouping,
/// so switching grouping is a repaint with no round trip.
#[derive(Debug, Clone, PartialEq, Eq)]
pub struct TimelineItem {
    pub path: String,
    pub title: String,
    /// Time of day, since the date is in the heading above.
    pub at: String,
    pub day: String,
    pub week: String,
    pub month: String,
}

/// A tag and how many notes carry it.
#[derive(Debug, Clone, PartialEq, Eq)]
pub struct TagCount {
    pub tag: String,
    pub count: usize,
}

/// One tile on the thumbnail wall.
#[derive(Debug, Clone, PartialEq, Eq)]
pub struct WallItem {
    pub name: String,
    pub thumb: String,
    /// The note the picture belongs to, so Enter can open it.
    pub path: String,
    pub title: String,
    pub when: String,
}

/// A note opened for reading.
#[derive(Debug, Clone, PartialEq, Eq)]
pub struct NoteView {
    /// This note's own `[[link]]` target, for copying a link to it.
    pub name: String,
    pub title: String,
    pub when: String,
    /// The body with the title line and lone embeds removed.
    pub body: String,
    pub images: Vec<Pasted>,
    /// The newest note declaring that it corrects this one, if any.
    pub superseded_by: Option<RefView>,
    /// Notes that reference this one.
    pub backlinks: Vec<RefView>,
}

/// A moment as text in one of the library's patterns.
pub open spec fn shown(t: Stamp, pattern: Seq<char>) -> Seq<char> {
    formatted(t.secs as int, t.nanos as int, t.offset as int, pattern)
}

/// What a reference shows: its name, its title and its date.
pub open spec fn ref_shown(r: Ref) -> (Seq<char>, Seq<char>, Seq<char>) {
    (r.name@, r.title@, shown(r.created, DATE@))
}

/// The text of a reference view.
pub open spec fn ref_view_text(v: RefView) -> (Seq<char>, Seq<char>, Seq<char>) {
    (v.name@, v.title@, v.when@)
}

/// `Week <n> · <year>`, in ISO weeks.
pub open spec fn week_label(t: Stamp) -> Seq<char> {
    let w = iso_week_of(t.secs as int, t.nanos as int, t.offset as int);
    "Week "@ + decimal(w.0 as nat) + " · "@ + signed_decimal(w.1)
}

impl RefView {
    /// A reference by date only: a backlink is a pointer, not an event, and
    /// the time of day it was written says nothing about the note being read.
    pub fn from_ref(r: &Ref) -> (v: RefView)
        requires
            valid_stamp(r.created),
        ensures
            ref_view_text(v) == ref_shown(*r),
    {
        RefView { name: r.name.clone(), title: r.title.clone(), when: format_stamp(r.created, DATE) }
    }
}

impl HitView {
    /// A search result with its link name and its date and time.
    pub fn from_hit(h: &Hit) -> (v: HitView)
        requires
            valid_stamp(h.created),
        ensures
            v.path@ == h.path@,
            v.name@ == match path_stem(h.path@) {
                Some(s) => s,
                None => Seq::empty(),
            },
            v.title@ == h.title@,
            v.when@ == shown(h.created, DATE_MINUTE@),
            v.snippet@ == h.snippet@,
    {
        HitView {
            path: h.path.clone(),
            name: link_name(h.path.as_str()),
            title: h.title.clone(),
            when: format_stamp(h.created, DATE_MINUTE),
            snippet: h.snippet.clone(),
        }
    }
}

impl TimelineItem {
    /// A timeline row with its time of day and its day, ISO week and month
    /// headings.
    pub fn from_ref(r: &Ref) -> (v: TimelineItem)
        requires
            valid_stamp(r.created),
        ensures
            v.path@ == r.path@,
            v.title@ == r.title@,
            v.at@ == shown(r.created, CLOCK@),
            v.day@ == shown(r.created, LONG_DAY@),
            v.week@ == week_label(r.created),
            v.month@ == shown(r.created, MONTH_YEAR@),
    {
        let (w, y) = iso_week(r.created);
        let mut week = chars_of("Week ");
        let wd = decimal_chars(w as u64);
        crate::text::push_all(&mut week, wd.as_slice());
        crate::text::push_str(&mut week, " · ");
        let yd = signed_decimal_chars(y);
        crate::text::push_all(&mut week, yd.as_slice());
        TimelineItem {
            path: r.path.clone(),
            title: r.title.clone(),
            at: format_stamp(r.created, CLOCK),
            day: format_stamp(r.created, LONG_DAY),
            week: string_of(week.as_slice()),
            month: format_stamp(r.created, MONTH_YEAR),
        }
    }
}

impl WallItem {
    /// A wall tile for a picture whose thumbnail is at hand. Tiles without a
    /// thumbnail are left off the wall, which is navigated by recognising
    /// pictures.
    pub fn from_shot(shot: &Shot, thumb: &[u8]) -> (v: WallItem)
        requires
            valid_stamp(shot.created),
        ensures
            v.name@ == shot.name@,
            v.thumb@ == "data:image/webp;base64,"@ + base64_of(thumb@),
            v.path@ == shot.note@,
            v.title@ == shot.title@,
            v.when@ == shown(shot.created, DATE@),
    {
        WallItem {
            name: shot.name.clone(),
            thumb: data_url(thumb),
            path: shot.note.clone(),
            title: shot.title.clone(),
            when: format_stamp(shot.created, DATE),
        }
    }
}

impl Pasted {
    /// An embeddable image and its thumbnail, if there is one.
    pub fn new(name: String, thumb: Option<&[u8]>) -> (p: Pasted)
        ensures
            p.name == name,
            p.thumb is Some <==> thumb is Some,
            thumb matches Some(b) ==> p.thumb.unwrap()@ == "data:image/webp;base64,"@ + base64_of(
                b@,
            ),
    {
        match thumb {
            Some(b) => Pasted { name, thumb: Some(data_url(b)) },
            None => Pasted { name, thumb: None },
        }
    }
}

/// The references that are not the one the banner names.
pub open spec fn unbannered(refs: Seq<Ref>, banner: Option<Seq<char>>) -> Seq<Ref>
    decreases refs.len(),
{
    if refs.len() == 0 {
        Seq::empty()
    } else {
        let rest = unbannered(refs.drop_last(), banner);
        match banner {
            Some(b) => if refs.last().name@ == b {
                rest
            } else {
                rest.push(refs.last())
            },
            None => rest.push(refs.last()),
        }
    }
}

/// Whether a reference is shown beside a banner naming `banner`: every one
/// is when there is no banner, and otherwise every one but the banner's.
pub open spec fn shown_beside(banner: Option<Seq<char>>) -> spec_fn(Ref) -> bool {
    |r: Ref| banner is None || r.name@ != banner->0
}

/// The backlinks shown under a banner are the backlinks in their order with
/// exactly the banner's note left out, wherever it stands among them.
pub proof fn law_unbannered(refs: Seq<Ref>, banner: Option<Seq<char>>)
    ensures
        unbannered(refs, banner) == refs.filter(shown_beside(banner)),
    decreases refs.len(),
{
    reveal(Seq::filter);
    if refs.len() > 0 {
        law_unbannered(refs.drop_last(), banner);
    }
}

/// Every moment in `refs` is one chrono can represent.
pub open spec fn valid_refs(refs: Seq<Ref>) -> bool {
    forall|i: int| 0 <= i < refs.len() ==> valid_stamp(#[trigger] refs[i].created)
}

/// The banner's name, if there is a banner.
pub open spec fn banner_name(banner: Option<&Ref>) -> Option<Seq<char>> {
    match banner {
        Some(b) => Some(b.name@),
        None => None,
    }
}

/// Backlinks minus the note the banner already names, which would otherwise
/// be said twice in a small window. Every other note that points here still
/// appears, including an older correction that the banner, naming only the
/// newest, did not pick.
pub fn other_backlinks(backlinks: &Vec<Ref>, banner: Option<&Ref>) -> (r: Vec<RefView>)
    requires
        valid_refs(backlinks@),
    ensures
        r@.len() == unbannered(backlinks@, banner_name(banner)).len(),
        forall|i: int| 0 <= i < r@.len() ==> ref_view_text(#[trigger] r@[i]) == ref_shown(
            unbannered(backlinks@, banner_name(banner))[i],
        ),
{
    let ghost bn = banner_name(banner);
    let mut out: Vec<RefView> = Vec::new();
    let mut i: usize = 0;
    while i < backlinks.len()
        invariant
            i <= backlinks@.len(),
            valid_refs(backlinks@),
            bn == banner_name(banner),
            out@.len() == unbannered(backlinks@.subrange(0, i as int), bn).len(),
            forall|k: int| 0 <= k < out@.len() ==> ref_view_text(#[trigger] out@[k]) == ref_shown(
                unbannered(backlinks@.subrange(0, i as int), bn)[k],
            ),
        decreases backlinks.len() - i,
    {
        let r = &backlinks[i];
        let ghost pre = backlinks@.subrange(0, i as int);
        assert(backlinks@.subrange(0, i + 1).drop_last() =~= pre);
        assert(backlinks@.subrange(0, i + 1).last() == backlinks@[i as int]);
        let shown_here = match banner {
            Some(b) => !(b.name == r.name),
            None => true,
        };
        if shown_here {
            assert(valid_stamp(backlinks@[i as int].created));
            out.push(RefView::from_ref(r));
        }
        i += 1;
    }
    assert(backlinks@.subrange(0, backlinks@.len() as int) =~= backlinks@);
    out
}

/// A note as the viewer reads it. `superseded_by` and `backlinks` are claims
/// made by other notes, so they come from the index rather than from the
/// note in hand.
pub fn note_view(
    name: String,
    note: &Note,
    images: Vec<Pasted>,
    superseded_by: Option<Ref>,
    backlinks: &Vec<Ref>,
) -> (v: NoteView)
    requires
        valid_stamp(note.created),
        superseded_by matches Some(s) ==> valid_stamp(s.created),
        valid_refs(backlinks@),
    ensures
        v.name == name,
        v.title@ == title_of(note.body@),
        v.when@ == shown(note.created, DATE_MINUTE@),
        v.body@ == shown_text(content_of(note.body@)),
        v.images == images,
        v.superseded_by is Some <==> superseded_by is Some,
        superseded_by matches Some(s) ==> ref_view_text(v.superseded_by.unwrap()) == ref_shown(s),
        v.backlinks@.len() == unbannered(
            backlinks@,
            match superseded_by {
                Some(s) => Some(s.name@),
                None => None,
            },
        ).len(),
        forall|i: int| 0 <= i < v.backlinks@.len() ==> ref_view_text(#[trigger] v.backlinks@[i]) == ref_shown(
            unbannered(
                backlinks@,
                match superseded_by {
                    Some(s) => Some(s.name@),
                    None => None,
                },
            )[i],
        ),
{
    let others = other_backlinks(backlinks, superseded_by.as_ref());
    let banner = match &superseded_by {
        Some(s) => Some(RefView::from_ref(s)),
        None => None,
    };
    let title = note.title();
    NoteView {
        name,
        title: String::from_str(title),
        when: format_stamp(note.created, DATE_MINUTE),
        body: without_embed_lines(note.content()),
        images,
        superseded_by: banner,
        backlinks: others,
    }
}

/// `serde_json::to_string` of a list of strings.
pub uninterp spec fn json_text(items: Seq<Seq<char>>) -> Seq<char>;

/// Calls `serde_json::to_string` on a list of strings, which cannot fail for
/// strings; the JSON is named.
#[verifier::external_body]
fn json_strings(items: &Vec<String>) -> (r: String)
    ensures
        r@ == json_text(crate::index::texts_of(items@)),
{
    serde_json::to_string(items).unwrap_or_default()
}

/// The page of the image window for the pictures `names`, opened at the one
/// at `index`; an error when there is nothing to show.
pub open spec fn image_page_text(names: Seq<Seq<char>>, index: nat) -> Result<Seq<char>, Seq<char>> {
    if names.len() == 0 {
        Err("no images to show"@)
    } else {
        Ok("image.html?i="@ + decimal(index) + "&n="@ + escaped(vstd::utf8::encode_utf8(json_text(names))))
    }
}

/// The page of the image window for the pictures `names`, opened at the one
/// at `index`.
pub fn image_page(names: &Vec<String>, index: usize) -> (r: Result<String, String>)
    ensures
        (match r {
            Ok(p) => Ok(p@),
            Err(e) => Err(e@),
        }) == image_page_text(crate::index::texts_of(names@), index as nat),
{
    if names.len() == 0 {
        return Err(String::from_str("no images to show"));
    }
    let json = json_strings(names);
    let enc = urlencode(json.as_str());
    let mut out = chars_of("image.html?i=");
    let d = decimal_chars(index as u64);
    crate::text::push_all(&mut out, d.as_slice());
    crate::text::push_str(&mut out, "&n=");
    crate::text::push_str(&mut out, enc.as_str());
    Ok(string_of(out.as_slice()))
}

} // verus!
