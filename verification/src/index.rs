//! The search index's records and the decisions of bringing it in line with
//! the notes directory.
//!
//! The index is derived state: a cache that can be deleted at any time and
//! rebuilt from the notes. Its storage is SQLite, which the caller drives;
//! what is kept, and when a file counts as added, changed or gone, is decided
//! here.
use vstd::prelude::*;
use crate::stamp::Stamp;
use crate::text::{
    chars_of, string_of, trim, trim_vec,
};

verus! {

/// A search result.
#[derive(Debug, Clone, PartialEq, Eq)]
pub struct Hit {
    pub path: String,
    pub title: String,
    pub created: Stamp,
    /// Matching text with the hit marked by `»…«`, or the opening of the note
    /// when there is no query to match.
    pub snippet: String,
}

/// Another note pointing at this one: a backlink, or the note that supersedes
/// it.
#[derive(Debug, Clone, PartialEq, Eq)]
pub struct Ref {
    pub path: String,
    /// The note's `[[link]]` target: its filename without the `.md`.
    pub name: String,
    pub title: String,
    pub created: Stamp,
}

/// One picture on the thumbnail wall, and the note it belongs to.
#[derive(Debug, Clone, PartialEq, Eq)]
pub struct Shot {
    /// Attachment filename, as the note embeds it.
    pub name: String,
    pub note: String,
    /// The note's `[[link]]` target.
    pub note_name: String,
    pub title: String,
    pub created: Stamp,
}

/// What a sync of the index did.
#[derive(Debug, PartialEq, Eq)]
pub struct SyncStats {
    pub added: usize,
    pub updated: usize,
    pub removed: usize,
}

/// How a file on disk stands against what the index recorded of it.
#[derive(Debug, Clone, Copy, PartialEq, Eq)]
pub enum FileChange {
    /// Recorded with the same modification time and size: skipped.
    Unchanged,
    /// Recorded, but with another time or size: indexed again.
    Updated,
    /// Not recorded: indexed for the first time.
    Added,
}

impl Default for SyncStats {
    fn default() -> (r: SyncStats)
        ensures
            r.added == 0 && r.updated == 0 && r.removed == 0,
    {
        SyncStats { added: 0, updated: 0, removed: 0 }
    }
}

impl SyncStats {
    /// Whether the sync changed anything.
    pub fn changed(&self) -> (r: bool)
        ensures
            r == (self.added + self.updated + self.removed > 0),
    {
        self.added > 0 || self.updated > 0 || self.removed > 0
    }

    /// Counts a file that is to be indexed.
    pub fn count(&mut self, change: FileChange)
        requires
            old(self).added < usize::MAX,
            old(self).updated < usize::MAX,
        ensures
            final(self).added == old(self).added + if change == FileChange::Added {
                1int
            } else {
                0int
            },
            final(self).updated == old(self).updated + if change == FileChange::Updated {
                1int
            } else {
                0int
            },
            final(self).removed == old(self).removed,
    {
        match change {
            FileChange::Added => self.added = self.added + 1,
            FileChange::Updated => self.updated = self.updated + 1,
            FileChange::Unchanged => {},
        }
    }

    /// Takes back a count for a file that turned out not to be a note: an
    /// empty or unreadable file is skipped, not fatal, since the vault is a
    /// directory a person can drop anything into. The count taken back is
    /// the added one, while there is one.
    pub fn uncount_unreadable(&mut self)
        ensures
            final(self).added == if old(self).added > 0 {
                old(self).added - 1
            } else {
                0
            },
            final(self).updated == old(self).updated,
            final(self).removed == old(self).removed,
    {
        if self.added > 0 {
            self.added = self.added - 1;
        }
    }
}

/// How a file with modification time `mtime` and size `size` stands against
/// what the index recorded for its path.
pub open spec fn change_of(known: Option<(i64, i64)>, mtime: i64, size: i64) -> FileChange {
    match known {
        Some(k) => if k.0 == mtime && k.1 == size {
            FileChange::Unchanged
        } else {
            FileChange::Updated
        },
        None => FileChange::Added,
    }
}

/// How a file stands against what the index recorded of it.
pub fn classify(known: Option<(i64, i64)>, mtime: i64, size: i64) -> (r: FileChange)
    ensures
        r == change_of(known, mtime, size),
{
    match known {
        Some((m, s)) => if m == mtime && s == size {
            FileChange::Unchanged
        } else {
            FileChange::Updated
        },
        None => FileChange::Added,
    }
}

/// The text of each string.
pub open spec fn texts_of(v: Seq<String>) -> Seq<Seq<char>> {
    Seq::new(v.len(), |i: int| v[i]@)
}

/// The recorded paths not seen on disk, in the order recorded.
pub open spec fn gone(existing: Seq<Seq<char>>, seen: Seq<Seq<char>>) -> Seq<Seq<char>>
    decreases existing.len(),
{
    if existing.len() == 0 {
        Seq::empty()
    } else if seen.contains(existing.last()) {
        gone(existing.drop_last(), seen)
    } else {
        gone(existing.drop_last(), seen).push(existing.last())
    }
}

/// The recorded paths that were not seen in the directory: the notes that
/// have been deleted, whose rows and links go with them.
pub fn missing(existing: &Vec<String>, seen: &Vec<String>) -> (r: Vec<String>)
    ensures
        texts_of(r@) == gone(texts_of(existing@), texts_of(seen@)),
{
    let ghost ex = texts_of(existing@);
    let ghost sn = texts_of(seen@);
    let mut out: Vec<String> = Vec::new();
    let mut i: usize = 0;
    assert(texts_of(out@) =~= gone(ex.subrange(0, 0), sn));
    while i < existing.len()
        invariant
            i <= existing@.len(),
            ex == texts_of(existing@),
            sn == texts_of(seen@),
            texts_of(out@) == gone(ex.subrange(0, i as int), sn),
        decreases existing.len() - i,
    {
        let mut found = false;
        let mut j: usize = 0;
        while j < seen.len()
            invariant
                j <= seen@.len(),
                i < existing@.len(),
                sn == texts_of(seen@),
                found <==> exists|k: int| 0 <= k < j && #[trigger] sn[k] == existing@[i as int]@,
            decreases seen.len() - j,
        {
            assert(sn[j as int] == seen@[j as int]@);
            if seen[j] == existing[i] {
                found = true;
            }
            j += 1;
        }
        assert(ex.subrange(0, i + 1).drop_last() =~= ex.subrange(0, i as int));
        assert(ex.subrange(0, i + 1).last() == existing@[i as int]@);
        assert(found == sn.contains(existing@[i as int]@));
        if !found {
            let ghost pre = out@;
            out.push(existing[i].clone());
            assert(texts_of(out@) =~= texts_of(pre).push(existing@[i as int]@));
        }
        i += 1;
    }
    assert(ex.subrange(0, ex.len() as int) =~= ex);
    out
}

/// A sync of the index in progress: the note paths seen in the directory so
/// far, and the counts. The directory is walked rather than watched: a scan
/// costs milliseconds, and cannot miss an event the way a watcher can after a
/// `git pull` rewrites files underneath it.
pub struct SyncRun {
    pub stats: SyncStats,
    pub seen: Vec<String>,
}

/// What a sync in progress has counted: files added, files updated, files
/// removed, and the paths seen.
pub type RunModel = (int, int, int, Seq<Seq<char>>);

/// A run after a note file at `path` was visited and found to stand as
/// `change`.
pub open spec fn visited(m: RunModel, path: Seq<char>, change: FileChange) -> RunModel {
    (
        m.0 + if change == FileChange::Added {
            1int
        } else {
            0int
        },
        m.1 + if change == FileChange::Updated {
            1int
        } else {
            0int
        },
        m.2,
        m.3.push(path),
    )
}

/// A run after the file visited last turned out not to be a note.
pub open spec fn dropped(m: RunModel) -> RunModel {
    (
        if m.0 > 0 {
            m.0 - 1
        } else {
            0
        },
        m.1,
        m.2,
        if m.3.len() > 0 {
            m.3.drop_last()
        } else {
            m.3
        },
    )
}

/// One file of a walk of the notes directory: its path, how it stands
/// against the index, and whether it reads as a note. A file that is
/// unchanged is not read.
pub type Walked = (Seq<char>, FileChange, bool);

/// A run over a whole walk, as `SyncRun::new`, then `visit` for each file,
/// and `unreadable` after each one that was read and is no note.
pub open spec fn walk(vs: Seq<Walked>) -> RunModel
    decreases vs.len(),
{
    if vs.len() == 0 {
        (0, 0, 0, Seq::empty())
    } else {
        let v = vs.last();
        let m = visited(walk(vs.drop_last()), v.0, v.1);
        if v.1 != FileChange::Unchanged && !v.2 {
            dropped(m)
        } else {
            m
        }
    }
}

/// How many files of a walk stand as `change` and were indexed.
pub open spec fn indexed_as(vs: Seq<Walked>, change: FileChange) -> int
    decreases vs.len(),
{
    if vs.len() == 0 {
        0
    } else {
        indexed_as(vs.drop_last(), change) + if vs.last().1 == change && vs.last().2 {
            1int
        } else {
            0int
        }
    }
}

/// The paths of a walk's notes, in the order walked: every file but those
/// read and found to be no note.
pub open spec fn notes_walked(vs: Seq<Walked>) -> Seq<Seq<char>>
    decreases vs.len(),
{
    if vs.len() == 0 {
        Seq::empty()
    } else if vs.last().1 == FileChange::Unchanged || vs.last().2 {
        notes_walked(vs.drop_last()).push(vs.last().0)
    } else {
        notes_walked(vs.drop_last())
    }
}

/// A whole sync: where no file the index held has become unreadable since,
/// the run counts as added exactly the new files that are notes, as
/// updated exactly the changed ones, and has seen exactly the notes'
/// paths; and what `finish` removes is exactly the recorded paths that are
/// not among them.
pub proof fn law_sync_run(vs: Seq<Walked>, existing: Seq<Seq<char>>)
    requires
        forall|i: int| 0 <= i < vs.len() && #[trigger] vs[i].1 == FileChange::Updated ==> vs[i].2,
    ensures
        walk(vs).0 == indexed_as(vs, FileChange::Added),
        walk(vs).1 == indexed_as(vs, FileChange::Updated),
        walk(vs).2 == 0,
        walk(vs).3 == notes_walked(vs),
        forall|p: Seq<char>|
            #[trigger] gone(existing, walk(vs).3).contains(p) <==> existing.contains(p) && !notes_walked(
                vs,
            ).contains(p),
    decreases vs.len(),
{
    if vs.len() > 0 {
        let pre = vs.drop_last();
        assert forall|i: int| 0 <= i < pre.len() && #[trigger] pre[i].1 == FileChange::Updated implies pre[i].2 by {
            assert(pre[i] == vs[i]);
        }
        law_sync_run(pre, existing);
        let v = vs.last();
        assert(v == vs[vs.len() - 1]);
        lemma_indexed_nonneg(pre, FileChange::Added);
        let m = visited(walk(pre), v.0, v.1);
        assert(m.3.drop_last() =~= walk(pre).3);
    }
    lemma_gone(existing, walk(vs).3);
}

/// A sync of a directory where nothing changed since the last one counts
/// nothing and removes nothing: every file stands unchanged, and every
/// recorded path is still there.
pub proof fn law_sync_unchanged(vs: Seq<Walked>, existing: Seq<Seq<char>>)
    requires
        forall|i: int| 0 <= i < vs.len() ==> (#[trigger] vs[i]).1 == FileChange::Unchanged,
        forall|p: Seq<char>| #[trigger] existing.contains(p) ==> exists|i: int| 0 <= i < vs.len() && vs[i].0 == p,
    ensures
        walk(vs).0 == 0,
        walk(vs).1 == 0,
        gone(existing, walk(vs).3).len() == 0,
{
    law_sync_run(vs, existing);
    lemma_unchanged_walk(vs);
    let g = gone(existing, walk(vs).3);
    if g.len() > 0 {
        let p = g[0];
        assert(g.contains(p));
        assert(existing.contains(p));
        let i = choose|i: int| 0 <= i < vs.len() && vs[i].0 == p;
        assert(notes_walked(vs)[i] == p);
    }
}

proof fn lemma_unchanged_walk(vs: Seq<Walked>)
    requires
        forall|i: int| 0 <= i < vs.len() ==> (#[trigger] vs[i]).1 == FileChange::Unchanged,
    ensures
        indexed_as(vs, FileChange::Added) == 0,
        indexed_as(vs, FileChange::Updated) == 0,
        notes_walked(vs).len() == vs.len(),
        forall|i: int| 0 <= i < vs.len() ==> notes_walked(vs)[i] == (#[trigger] vs[i]).0,
    decreases vs.len(),
{
    if vs.len() > 0 {
        let pre = vs.drop_last();
        assert forall|i: int| 0 <= i < pre.len() implies (#[trigger] pre[i]).1 == FileChange::Unchanged by {
            assert(pre[i] == vs[i]);
        }
        lemma_unchanged_walk(pre);
        assert(vs.last() == vs[vs.len() - 1]);
        assert forall|i: int| 0 <= i < vs.len() implies notes_walked(vs)[i] == (#[trigger] vs[i]).0 by {
            if i < pre.len() {
                assert(pre[i] == vs[i]);
            }
        }
    }
}

proof fn lemma_indexed_nonneg(vs: Seq<Walked>, change: FileChange)
    ensures
        indexed_as(vs, change) >= 0,
    decreases vs.len(),
{
    if vs.len() > 0 {
        lemma_indexed_nonneg(vs.drop_last(), change);
    }
}

/// What `gone` holds: the recorded paths not seen.
pub proof fn lemma_gone(existing: Seq<Seq<char>>, seen: Seq<Seq<char>>)
    ensures
        forall|p: Seq<char>|
            #[trigger] gone(existing, seen).contains(p) <==> existing.contains(p) && !seen.contains(p),
    decreases existing.len(),
{
    if existing.len() > 0 {
        let pre = existing.drop_last();
        lemma_gone(pre, seen);
        assert forall|p: Seq<char>| #[trigger] existing.contains(p) <==> pre.contains(p) || p == existing.last() by {
            if existing.contains(p) {
                let k = choose|k: int| 0 <= k < existing.len() && existing[k] == p;
                if k < existing.len() - 1 {
                    assert(pre[k] == p);
                }
            }
            if pre.contains(p) {
                let k = choose|k: int| 0 <= k < pre.len() && pre[k] == p;
                assert(existing[k] == p);
            }
            if p == existing.last() {
                assert(existing[existing.len() - 1] == p);
            }
        }
        let g = gone(existing, seen);
        let gp = gone(pre, seen);
        assert forall|p: Seq<char>| #[trigger] g.contains(p) <==> existing.contains(p) && !seen.contains(p) by {
            if !seen.contains(existing.last()) {
                assert(g == gp.push(existing.last()));
                if g.contains(p) {
                    let k = choose|k: int| 0 <= k < g.len() && g[k] == p;
                    if k < gp.len() {
                        assert(gp[k] == p);
                    }
                }
                if gp.contains(p) {
                    let k = choose|k: int| 0 <= k < gp.len() && gp[k] == p;
                    assert(g[k] == p);
                }
                if p == existing.last() {
                    assert(g[g.len() - 1] == p);
                }
            }
        }
    }
}

impl SyncRun {
    /// What the run has counted so far.
    pub open spec fn model(&self) -> RunModel {
        (self.stats.added as int, self.stats.updated as int, self.stats.removed as int, texts_of(self.seen@))
    }

    pub fn new() -> (r: SyncRun)
        ensures
            r.stats.added == 0 && r.stats.updated == 0 && r.stats.removed == 0,
            r.seen@.len() == 0,
            r.model() == walk(Seq::empty()),
    {
        let r = SyncRun { stats: SyncStats::default(), seen: Vec::new() };
        assert(texts_of(r.seen@) =~= Seq::<Seq<char>>::empty());
        r
    }

    /// A note file found at `path`: remembered as seen, and counted as it
    /// stands against what the index recorded for it. The change says
    /// whether it is to be read and indexed.
    pub fn visit(&mut self, path: String, known: Option<(i64, i64)>, mtime: i64, size: i64) -> (r:
        FileChange)
        requires
            old(self).stats.added < usize::MAX,
            old(self).stats.updated < usize::MAX,
        ensures
            r == change_of(known, mtime, size),
            final(self).seen@ == old(self).seen@.push(path),
            final(self).stats.added == old(self).stats.added + if r == FileChange::Added {
                1int
            } else {
                0int
            },
            final(self).stats.updated == old(self).stats.updated + if r == FileChange::Updated {
                1int
            } else {
                0int
            },
            final(self).stats.removed == old(self).stats.removed,
            final(self).model() == visited(old(self).model(), path@, r),
    {
        let change = classify(known, mtime, size);
        let ghost pre = self.seen@;
        self.seen.push(path);
        self.stats.count(change);
        proof {
            assert(texts_of(self.seen@) =~= texts_of(pre).push(path@));
        }
        change
    }

    /// The file visited last turned out not to be a note: it is no longer
    /// counted as seen, and its count is taken back.
    pub fn unreadable(&mut self)
        ensures
            final(self).seen@ == if old(self).seen@.len() > 0 {
                old(self).seen@.drop_last()
            } else {
                old(self).seen@
            },
            final(self).stats.added == if old(self).stats.added > 0 {
                old(self).stats.added - 1
            } else {
                0
            },
            final(self).stats.updated == old(self).stats.updated,
            final(self).stats.removed == old(self).stats.removed,
            final(self).model() == dropped(old(self).model()),
    {
        let ghost pre = self.seen@;
        self.seen.pop();
        self.stats.uncount_unreadable();
        proof {
            if pre.len() > 0 {
                assert(texts_of(self.seen@) =~= texts_of(pre).drop_last());
            }
        }
    }

    /// The end of the walk: the paths the index holds that were not seen,
    /// which are removed, and the counts with them.
    pub fn finish(self, existing: &Vec<String>) -> (r: (SyncStats, Vec<String>))
        ensures
            texts_of(r.1@) == gone(texts_of(existing@), texts_of(self.seen@)),
            r.0.added == self.stats.added,
            r.0.updated == self.stats.updated,
            r.0.removed == r.1@.len(),
    {
        let removed = missing(existing, &self.seen);
        let stats = SyncStats { added: self.stats.added, updated: self.stats.updated, removed: removed.len() };
        (stats, removed)
    }
}

/// `Path::extension` of a path, as text.
pub uninterp spec fn path_extension(p: Seq<char>) -> Option<Seq<char>>;

/// `Path::file_stem` of a path, as text.
pub uninterp spec fn path_stem(p: Seq<char>) -> Option<Seq<char>>;

/// Calls `Path::extension`; what it finds is named. The extension is part of
/// the last component, so it holds no `/`.
#[verifier::external_body]
fn extension(path: &str) -> (r: Option<String>)
    ensures
        r is None <==> path_extension(path@) is None,
        r matches Some(e) ==> path_extension(path@) == Some(e@) && !e@.contains('/'),
{
    match std::path::Path::new(path).extension() {
        Some(e) => Some(e.to_string_lossy().into_owned()),
        None => None,
    }
}

/// Calls `Path::file_stem`; what it finds is named. The stem is part of the
/// last component, so it holds no `/`.
#[verifier::external_body]
fn file_stem(path: &str) -> (r: Option<String>)
    ensures
        r is None <==> path_stem(path@) is None,
        r matches Some(s) ==> path_stem(path@) == Some(s@) && !s@.contains('/'),
{
    match std::path::Path::new(path).file_stem() {
        Some(s) => Some(s.to_string_lossy().into_owned()),
        None => None,
    }
}

/// Whether a file in the notes directory is a note: its extension is `md`.
pub fn is_note_path(path: &str) -> (r: bool)
    ensures
        r == (path_extension(path@) == Some("md"@)),
{
    match extension(path) {
        Some(e) => {
            let ec = chars_of(e.as_str());
            let md = chars_of("md");
            crate::text::same_chars(ec.as_slice(), md.as_slice())
        },
        None => false,
    }
}

/// The `[[link]]` target for a note: its filename without the `.md`.
pub fn link_name(path: &str) -> (r: String)
    ensures
        r@ == match path_stem(path@) {
            Some(s) => s,
            None => Seq::empty(),
        },
        !r@.contains('/'),
{
    match file_stem(path) {
        Some(s) => s,
        None => String::new(),
    }
}

/// A snippet as a list shows it: on one line, trimmed.
pub open spec fn one_line(s: Seq<char>) -> Seq<char> {
    trim(Seq::new(s.len(), |i: int| if s[i] == '\n' { ' ' } else { s[i] }))
}

/// A snippet as a list shows it.
pub fn clean_snippet(s: &str) -> (r: String)
    ensures
        r@ == one_line(s@),
{
    let c = chars_of(s);
    let mut out: Vec<char> = Vec::new();
    let mut i: usize = 0;
    while i < c.len()
        invariant
            i <= c@.len(),
            out@.len() == i,
            forall|k: int| 0 <= k < i ==> out@[k] == if c@[k] == '\n' { ' ' } else { c@[k] },
        decreases c.len() - i,
    {
        if c[i] == '\n' {
            out.push(' ');
        } else {
            out.push(c[i]);
        }
        i += 1;
    }
    assert(out@ =~= Seq::new(s@.len(), |i: int| if s@[i] == '\n' { ' ' } else { s@[i] }));
    let t = trim_vec(out.as_slice());
    string_of(t.as_slice())
}

// ---------------------------------------------------------------------------
// What the index's lists show.
// ---------------------------------------------------------------------------

/// Indexes of the first occurrence of each key, in order.
pub open spec fn first_indices(keys: Seq<Seq<char>>) -> Seq<int>
    decreases keys.len(),
{
    if keys.len() == 0 {
        Seq::empty()
    } else if keys.drop_last().contains(keys.last()) {
        first_indices(keys.drop_last())
    } else {
        first_indices(keys.drop_last()).push(keys.len() - 1)
    }
}

/// At most `n` of `s`, from the start.
pub open spec fn at_most(s: Seq<int>, n: int) -> Seq<int> {
    if s.len() <= n {
        s
    } else {
        s.subrange(0, n)
    }
}

/// Whether `key` is among the first `upto` of `keys`.
fn seen_before(keys: &Vec<String>, upto: usize, key: &String) -> (r: bool)
    requires
        upto <= keys@.len(),
    ensures
        r == texts_of(keys@).subrange(0, upto as int).contains(key@),
{
    let ghost pre = texts_of(keys@).subrange(0, upto as int);
    let mut j: usize = 0;
    while j < upto
        invariant
            j <= upto <= keys@.len(),
            pre == texts_of(keys@).subrange(0, upto as int),
            forall|k: int| 0 <= k < j ==> pre[k] != key@,
        decreases upto - j,
    {
        if keys[j] == *key {
            assert(pre[j as int] == key@);
            return true;
        }
        j += 1;
    }
    false
}

/// The rows the thumbnail wall shows, given the pictures' names in the order
/// of their notes, newest first, and within a note as pasted: each picture
/// once, where it first appears, which is in the newest note that embeds it,
/// and at most `limit` of them. The same screenshot in two notes is one thing
/// to recognise, and belongs to the note written most recently about it.
pub fn wall_picks(names: &Vec<String>, limit: usize) -> (r: Vec<usize>)
    ensures
        r@.map_values(|i: usize| i as int) == at_most(first_indices(texts_of(names@)), limit as int),
{
    let ghost keys = texts_of(names@);
    let mut out: Vec<usize> = Vec::new();
    let mut i: usize = 0;
    assert(out@.map_values(|i: usize| i as int) =~= first_indices(keys.subrange(0, 0)));
    while i < names.len() && out.len() < limit
        invariant
            i <= names@.len(),
            keys == texts_of(names@),
            out@.len() <= limit,
            out@.map_values(|i: usize| i as int) == first_indices(keys.subrange(0, i as int)),
        decreases names.len() - i,
    {
        let ghost pre = keys.subrange(0, i as int);
        assert(keys.subrange(0, i + 1).drop_last() =~= pre);
        assert(keys.subrange(0, i + 1).last() == names@[i as int]@);
        if !seen_before(names, i, &names[i]) {
            let ghost before = out@;
            out.push(i);
            assert(out@.map_values(|i: usize| i as int) =~= before.map_values(|i: usize| i as int).push(
                i as int,
            ));
        }
        i += 1;
    }
    proof {
        lemma_first_indices_prefix(keys, i as int);
        let f = first_indices(keys);
        let fp = first_indices(keys.subrange(0, i as int));
        assert(fp.len() == out@.len());
        if i == names.len() {
            assert(keys.subrange(0, i as int) =~= keys);
        } else {
            assert(out@.len() == limit);
            if f.len() <= limit {
                assert(f.subrange(0, f.len() as int) =~= f);
            }
        }
    }
    out
}

/// The first occurrences among the first `i` keys are a prefix of all of
/// them, and once there are `n` of those, the first `n` of all of them.
proof fn lemma_first_indices_prefix(keys: Seq<Seq<char>>, i: int)
    requires
        0 <= i <= keys.len(),
    ensures
        first_indices(keys.subrange(0, i)).len() <= first_indices(keys).len(),
        first_indices(keys).subrange(0, first_indices(keys.subrange(0, i)).len() as int)
            == first_indices(keys.subrange(0, i)),
    decreases keys.len() - i,
{
    if i < keys.len() {
        lemma_first_indices_prefix(keys, i + 1);
        let a = keys.subrange(0, i);
        let b = keys.subrange(0, i + 1);
        assert(b.drop_last() =~= a);
        let fb = first_indices(b);
        let fa = first_indices(a);
        if b.drop_last().contains(b.last()) {
            assert(fb == fa);
        } else {
            assert(fb == fa.push(i));
            assert(fb.subrange(0, fa.len() as int) =~= fa);
            assert(first_indices(keys).subrange(0, fa.len() as int) =~= first_indices(keys).subrange(
                0,
                fb.len() as int,
            ).subrange(0, fa.len() as int));
        }
    } else {
        assert(keys.subrange(0, i) =~= keys);
        assert(first_indices(keys).subrange(0, first_indices(keys).len() as int) =~= first_indices(keys));
    }
}

/// Indexes of the rows that name a note other than `target`, the first row
/// of each note only, in order.
pub open spec fn others_indices(paths: Seq<Seq<char>>, names: Seq<Seq<char>>, target: Seq<char>) -> Seq<int>
    decreases paths.len(),
{
    if paths.len() == 0 {
        Seq::empty()
    } else {
        let rest = others_indices(paths.drop_last(), names, target);
        let i = paths.len() - 1;
        if names[i] != target && !paths.drop_last().contains(paths.last()) {
            rest.push(i)
        } else {
            rest
        }
    }
}

/// The rows the backlinks of `target` show, given the notes that link to it
/// (their paths and link names) newest first: each note once, and never the
/// note itself, since a note that links to itself is not its own backlink.
pub fn backlink_picks(paths: &Vec<String>, names: &Vec<String>, target: &str) -> (r: Vec<usize>)
    requires
        paths@.len() == names@.len(),
    ensures
        r@.map_values(|i: usize| i as int) == others_indices(texts_of(paths@), texts_of(names@), target@),
{
    let ghost ps = texts_of(paths@);
    let ghost ns = texts_of(names@);
    let t = String::from_str(target);
    let mut out: Vec<usize> = Vec::new();
    let mut i: usize = 0;
    assert(out@.map_values(|i: usize| i as int) =~= others_indices(ps.subrange(0, 0), ns, target@));
    while i < paths.len()
        invariant
            i <= paths@.len() == names@.len(),
            ps == texts_of(paths@),
            ns == texts_of(names@),
            t@ == target@,
            out@.map_values(|i: usize| i as int) == others_indices(ps.subrange(0, i as int), ns, target@),
        decreases paths.len() - i,
    {
        let ghost pre = ps.subrange(0, i as int);
        assert(ps.subrange(0, i + 1).drop_last() =~= pre);
        assert(ps.subrange(0, i + 1).last() == paths@[i as int]@);
        assert(ns[i as int] == names@[i as int]@);
        let other = !(names[i] == t);
        if other && !seen_before(paths, i, &paths[i]) {
            let ghost before = out@;
            out.push(i);
            assert(out@.map_values(|i: usize| i as int) =~= before.map_values(|i: usize| i as int).push(
                i as int,
            ));
        }
        i += 1;
    }
    assert(ps.subrange(0, paths@.len() as int) =~= ps);
    out
}

/// The first row that names a note other than `target`.
pub open spec fn first_other(names: Seq<Seq<char>>, target: Seq<char>, i: int) -> Option<int>
    decreases names.len() - i,
{
    if 0 <= i < names.len() {
        if names[i] != target {
            Some(i)
        } else {
            first_other(names, target, i + 1)
        }
    } else {
        None
    }
}

/// The row the banner names, given the notes that declare they supersede
/// `target`, newest first: the newest one that is not `target` itself. The
/// banner says what is currently believed; the older corrections stay in the
/// backlinks.
pub fn superseding_pick(names: &Vec<String>, target: &str) -> (r: Option<usize>)
    ensures
        (match r {
            Some(i) => Some(i as int),
            None => None,
        }) == first_other(texts_of(names@), target@, 0),
{
    let ghost ns = texts_of(names@);
    let t = String::from_str(target);
    let mut i: usize = 0;
    while i < names.len()
        invariant
            i <= names@.len(),
            ns == texts_of(names@),
            t@ == target@,
            first_other(ns, target@, i as int) == first_other(ns, target@, 0),
        decreases names.len() - i,
    {
        assert(ns[i as int] == names@[i as int]@);
        if !(names[i] == t) {
            return Some(i);
        }
        i += 1;
    }
    None
}

/// `picks` are rows of `keys` in increasing order, no two with the same key.
pub open spec fn distinct_picks(keys: Seq<Seq<char>>, picks: Seq<int>) -> bool {
    &&& forall|k: int| 0 <= k < picks.len() ==> 0 <= #[trigger] picks[k] < keys.len()
    &&& forall|a: int, b: int|
        0 <= a < b < picks.len() ==> #[trigger] picks[a] < #[trigger] picks[b] && keys[picks[a]]
            != keys[picks[b]]
}

/// `picks` are rows that name a note other than `target`.
pub open spec fn picks_others(names: Seq<Seq<char>>, target: Seq<char>, picks: Seq<int>) -> bool {
    forall|k: int| 0 <= k < picks.len() ==> 0 <= #[trigger] picks[k] < names.len() && names[picks[k]] != target
}

/// The wall shows each picture once, in the order the rows come.
pub proof fn law_wall_distinct(keys: Seq<Seq<char>>, limit: int)
    requires
        0 <= limit,
    ensures
        distinct_picks(keys, at_most(first_indices(keys), limit)),
{
    lemma_first_indices(keys);
    let f = first_indices(keys);
    let g = at_most(f, limit);
    assert forall|k: int| 0 <= k < g.len() implies 0 <= #[trigger] g[k] < keys.len() by {
        assert(g[k] == f[k]);
    }
    assert forall|a: int, b: int| 0 <= a < b < g.len() implies #[trigger] g[a] < #[trigger] g[b]
        && keys[g[a]] != keys[g[b]] by {
        assert(g[a] == f[a] && g[b] == f[b]);
    }
}

proof fn lemma_first_indices(keys: Seq<Seq<char>>)
    ensures
        distinct_picks(keys, first_indices(keys)),
    decreases keys.len(),
{
    if keys.len() > 0 {
        let d = keys.drop_last();
        lemma_first_indices(d);
        let fd = first_indices(d);
        let f = first_indices(keys);
        assert forall|k: int| 0 <= k < fd.len() implies keys[fd[k]] == d[fd[k]] by {
            assert(0 <= fd[k] < d.len());
        }
        if !d.contains(keys.last()) {
            assert(f == fd.push(keys.len() - 1));
            assert forall|k: int| 0 <= k < f.len() implies 0 <= #[trigger] f[k] < keys.len() by {
                if k < fd.len() {
                    assert(f[k] == fd[k]);
                }
            }
            assert forall|a: int, b: int| 0 <= a < b < f.len() implies #[trigger] f[a] < #[trigger] f[b]
                && keys[f[a]] != keys[f[b]] by {
                assert(f[a] == fd[a]);
                assert(0 <= fd[a] < d.len());
                assert(keys[fd[a]] == d[fd[a]]);
                if b == f.len() - 1 {
                    if keys[f[a]] == keys[f[b]] {
                        assert(d.contains(keys.last()));
                    }
                } else {
                    assert(f[b] == fd[b]);
                    assert(0 <= fd[b] < d.len());
                    assert(keys[fd[b]] == d[fd[b]]);
                }
            }
        } else {
            assert(f == fd);
            assert forall|a: int, b: int| 0 <= a < b < f.len() implies #[trigger] f[a] < #[trigger] f[b]
                && keys[f[a]] != keys[f[b]] by {
                assert(0 <= fd[a] < d.len() && 0 <= fd[b] < d.len());
                assert(keys[fd[a]] == d[fd[a]] && keys[fd[b]] == d[fd[b]]);
            }
        }
    }
}

/// A note is never listed among its own backlinks, and each note that links
/// to it is listed once.
pub proof fn law_backlinks_others(paths: Seq<Seq<char>>, names: Seq<Seq<char>>, target: Seq<char>)
    requires
        paths.len() == names.len(),
    ensures
        picks_others(names, target, others_indices(paths, names, target)),
        distinct_picks(paths, others_indices(paths, names, target)),
{
    lemma_others(paths, names, target);
}

proof fn lemma_others(paths: Seq<Seq<char>>, names: Seq<Seq<char>>, target: Seq<char>)
    requires
        paths.len() <= names.len(),
    ensures
        picks_others(names, target, others_indices(paths, names, target)),
        distinct_picks(paths, others_indices(paths, names, target)),
    decreases paths.len(),
{
    if paths.len() > 0 {
        let d = paths.drop_last();
        lemma_others(d, names, target);
        let od = others_indices(d, names, target);
        let o = others_indices(paths, names, target);
        let i = paths.len() - 1;
        assert forall|k: int| 0 <= k < od.len() implies paths[od[k]] == d[od[k]] by {
            assert(0 <= od[k] < d.len());
        }
        if names[i] != target && !d.contains(paths.last()) {
            assert(o == od.push(i));
            assert forall|k: int| 0 <= k < o.len() implies 0 <= #[trigger] o[k] < names.len()
                && names[o[k]] != target by {
                if k < od.len() {
                    assert(o[k] == od[k]);
                }
            }
            assert forall|k: int| 0 <= k < o.len() implies 0 <= #[trigger] o[k] < paths.len() by {
                if k < od.len() {
                    assert(o[k] == od[k]);
                    assert(0 <= od[k] < d.len());
                }
            }
            assert forall|a: int, b: int| 0 <= a < b < o.len() implies #[trigger] o[a] < #[trigger] o[b]
                && paths[o[a]] != paths[o[b]] by {
                assert(o[a] == od[a]);
                assert(0 <= od[a] < d.len());
                if b == o.len() - 1 {
                    if paths[o[a]] == paths[o[b]] {
                        assert(d.contains(paths.last()));
                    }
                } else {
                    assert(o[b] == od[b]);
                    assert(0 <= od[b] < d.len());
                }
            }
        } else {
            assert(o == od);
            assert forall|k: int| 0 <= k < o.len() implies 0 <= #[trigger] o[k] < paths.len() by {
                assert(0 <= od[k] < d.len());
            }
            assert forall|a: int, b: int| 0 <= a < b < o.len() implies #[trigger] o[a] < #[trigger] o[b]
                && paths[o[a]] != paths[o[b]] by {
                assert(0 <= od[a] < d.len() && 0 <= od[b] < d.len());
            }
        }
    }
}

} // verus!
