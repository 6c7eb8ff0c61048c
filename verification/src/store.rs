//! Where the vault keeps things: the layout of the notes repository on disk,
//! which names may be read from it, and what a stored file is called.
//!
//! Reading and writing the files is the caller's part; every path it touches
//! comes from here.
use vstd::prelude::*;
use crate::index::texts_of;
use crate::number::{decimal, decimal_chars};
use crate::text::{
    chars_of, ends_with, has_char, has_suffix, match_at, matches_at, push_all, push_str, slice_of,
    string_of, trim, trim_vec,
};

verus! {

/// `PathBuf::join` of a relative name onto `base`, as it is on Unix: a `/`
/// between them unless `base` is empty or already ends with one.
pub open spec fn join(base: Seq<char>, name: Seq<char>) -> Seq<char> {
    if base.len() == 0 || base.last() == '/' {
        base + name
    } else {
        base + seq!['/'] + name
    }
}

/// `name` joined onto `base`.
pub fn join_path(base: &str, name: &str) -> (r: String)
    ensures
        r@ == join(base@, name@),
{
    let mut out = chars_of(base);
    let n = out.len();
    if n > 0 && out[n - 1] != '/' {
        out.push('/');
    }
    push_str(&mut out, name);
    string_of(out.as_slice())
}

/// The notes repository on disk.
pub struct Vault {
    root: String,
}

impl Vault {
    /// The vault's root directory.
    pub closed spec fn root_text(&self) -> Seq<char> {
        self.root@
    }

    pub fn new(root: &str) -> (r: Vault)
        ensures
            r.root_text() == root@,
    {
        Vault { root: String::from_str(root) }
    }

    pub fn root(&self) -> (r: &str)
        ensures
            r@ == self.root_text(),
    {
        self.root.as_str()
    }

    /// Where notes are kept.
    pub fn notes_dir(&self) -> (r: String)
        ensures
            r@ == join(self.root_text(), "notes"@),
    {
        join_path(self.root.as_str(), "notes")
    }

    /// Derived state: index, thumbnails, drafts. Gitignored, always
    /// rebuildable.
    pub fn state_dir(&self) -> (r: String)
        ensures
            r@ == join(self.root_text(), ".photomem"@),
    {
        join_path(self.root.as_str(), ".photomem")
    }

    /// Where pasted images are kept.
    pub fn attachments_dir(&self) -> (r: String)
        ensures
            r@ == join(self.root_text(), "attachments"@),
    {
        join_path(self.root.as_str(), "attachments")
    }

    /// Thumbnails, which are derived state.
    pub fn thumbs_dir(&self) -> (r: String)
        ensures
            r@ == join(join(self.root_text(), ".photomem"@), "thumbs"@),
    {
        let state = self.state_dir();
        join_path(state.as_str(), "thumbs")
    }

    /// The unsaved editor text.
    pub fn draft_path(&self) -> (r: String)
        ensures
            r@ == join(join(self.root_text(), ".photomem"@), "draft.md"@),
    {
        let state = self.state_dir();
        join_path(state.as_str(), "draft.md")
    }

    /// The `attempt`-th path tried for a note called `filename`: the name
    /// itself first, then `-2`, `-3`, … before the `.md`. Two notes captured
    /// in the same minute with the same title must not overwrite each other,
    /// so a caller takes the first of these that is not already taken.
    pub fn free_path(&self, filename: &str, attempt: u64) -> (r: String)
        requires
            attempt >= 1,
        ensures
            r@ == join(join(self.root_text(), "notes"@), numbered(filename@, attempt as nat)),
    {
        let dir = self.notes_dir();
        let name = numbered_name(filename, attempt);
        join_path(dir.as_str(), name.as_str())
    }
}

/// `s` without the suffix `p`, when it ends with it.
pub open spec fn strip_suffix(s: Seq<char>, p: Seq<char>) -> Seq<char> {
    if ends_with(s, p) {
        s.subrange(0, s.len() - p.len())
    } else {
        s
    }
}

/// The `n`-th name tried for a note file: `filename` itself, then its stem
/// with `-n` and `.md`.
pub open spec fn numbered(filename: Seq<char>, n: nat) -> Seq<char> {
    if n <= 1 {
        filename
    } else {
        strip_suffix(filename, ".md"@) + seq!['-'] + decimal(n) + ".md"@
    }
}

fn numbered_name(filename: &str, n: u64) -> (r: String)
    ensures
        r@ == numbered(filename@, n as nat),
{
    if n <= 1 {
        return String::from_str(filename);
    }
    let f = chars_of(filename);
    let md = chars_of(".md");
    let stem = if has_suffix(f.as_slice(), md.as_slice()) {
        slice_of(f.as_slice(), 0, f.len() - md.len())
    } else {
        slice_of(f.as_slice(), 0, f.len())
    };
    assert(f@.subrange(0, f@.len() as int) =~= f@);
    let mut out = stem;
    out.push('-');
    let digits = decimal_chars(n);
    push_all(&mut out, digits.as_slice());
    push_all(&mut out, md.as_slice());
    string_of(out.as_slice())
}

/// A bare filename: not empty, no `/` or `\`, no `..`. Attachment names come
/// out of note text, which a hand edit can make name any path on the disk.
pub open spec fn bare_name(name: Seq<char>) -> bool {
    &&& name.len() > 0
    &&& !name.contains('/')
    &&& !name.contains('\\')
    &&& !exists|i: int| match_at(name, ".."@, i)
}

/// `name` if it is a bare filename, else nothing: only a bare filename is
/// ever let through to a read.
pub fn safe_name(name: &str) -> (r: Option<&str>)
    ensures
        r is Some <==> bare_name(name@),
        r matches Some(s) ==> s@ == name@,
{
    let n = chars_of(name);
    let dots = chars_of("..");
    proof {
        reveal_strlit("..");
    }
    if n.len() == 0 || has_char(n.as_slice(), '/') || has_char(n.as_slice(), '\\') {
        return None;
    }
    let mut i: usize = 0;
    while i < n.len()
        invariant
            i <= n@.len(),
            dots@ == ".."@,
            n@ == name@,
            forall|k: int| 0 <= k < i ==> !match_at(n@, ".."@, k),
        decreases n.len() - i,
    {
        if matches_at(n.as_slice(), dots.as_slice(), i) {
            assert(match_at(name@, ".."@, i as int));
            assert(!bare_name(name@));
            return None;
        }
        i += 1;
    }
    assert forall|k: int| match_at(n@, ".."@, k) implies 0 <= k < n@.len() by {}
    Some(name)
}

/// Whether a draft is worth keeping: an empty one is cleared rather than
/// left behind as a stale file.
pub fn keeps_draft(text: &str) -> (r: bool)
    ensures
        r == (trim(text@).len() > 0),
{
    let t = chars_of(text);
    trim_vec(t.as_slice()).len() > 0
}

/// `<date>-<hash>.webp`: the name a new attachment is stored under. The name
/// is content-derived, so the same image pasted twice is stored once.
pub open spec fn attachment_file(date: Seq<char>, hash: Seq<char>) -> Seq<char> {
    date + seq!['-'] + hash + ".webp"@
}

/// The name to store an attachment with content hash `hash` under, first
/// captured on `date`.
pub fn attachment_name(date: &str, hash: &str) -> (r: String)
    ensures
        r@ == attachment_file(date@, hash@),
{
    let mut out = chars_of(date);
    out.push('-');
    push_str(&mut out, hash);
    push_str(&mut out, ".webp");
    string_of(out.as_slice())
}

/// Whether a stored file is the attachment with content hash `hash`,
/// whatever date it was first captured on.
pub fn is_attachment_for(file_name: &str, hash: &str) -> (r: bool)
    ensures
        r == ends_with(file_name@, seq!['-'] + hash@ + ".webp"@),
{
    let f = chars_of(file_name);
    let mut suffix: Vec<char> = Vec::new();
    suffix.push('-');
    push_str(&mut suffix, hash);
    push_str(&mut suffix, ".webp");
    assert(suffix@ =~= seq!['-'] + hash@ + ".webp"@);
    has_suffix(f.as_slice(), suffix.as_slice())
}

/// The first of `names` that is the attachment with content hash `hash`.
pub open spec fn first_attachment(names: Seq<Seq<char>>, hash: Seq<char>) -> Option<Seq<char>>
    decreases names.len(),
{
    if names.len() == 0 {
        None
    } else if ends_with(names[0], seq!['-'] + hash + ".webp"@) {
        Some(names[0])
    } else {
        first_attachment(names.drop_first(), hash)
    }
}

/// The name an attachment with content hash `hash`, pasted on `date`, is
/// stored under when the attachments directory holds `names`: an existing
/// file of that content, whatever day it was first captured on, or else a
/// new name for `date`.
pub open spec fn attachment_choice(names: Seq<Seq<char>>, date: Seq<char>, hash: Seq<char>) -> Seq<char> {
    match first_attachment(names, hash) {
        Some(n) => n,
        None => attachment_file(date, hash),
    }
}

/// An already stored attachment with content hash `hash`, among the file
/// names of the attachments directory, whatever date it was first captured
/// on.
pub fn existing_attachment(names: &Vec<String>, hash: &str) -> (r: Option<String>)
    ensures
        r matches Some(n) ==> first_attachment(texts_of(names@), hash@) == Some(n@),
        r is None ==> first_attachment(texts_of(names@), hash@) is None,
{
    let ghost all = texts_of(names@);
    let mut i: usize = 0;
    assert(all.subrange(0, all.len() as int) =~= all);
    while i < names.len()
        invariant
            i <= names@.len(),
            all == texts_of(names@),
            first_attachment(all.subrange(i as int, all.len() as int), hash@) == first_attachment(all, hash@),
        decreases names.len() - i,
    {
        let ghost rest = all.subrange(i as int, all.len() as int);
        assert(rest[0] == names@[i as int]@);
        assert(rest.drop_first() =~= all.subrange(i + 1, all.len() as int));
        if is_attachment_for(names[i].as_str(), hash) {
            return Some(names[i].clone());
        }
        i += 1;
    }
    assert(all.subrange(i as int, all.len() as int) =~= Seq::<Seq<char>>::empty());
    None
}

/// The name the attachment with content hash `hash`, pasted on `date`, is
/// stored under, when the attachments directory holds `names`.
pub fn attachment_for(names: &Vec<String>, date: &str, hash: &str) -> (r: String)
    ensures
        r@ == attachment_choice(texts_of(names@), date@, hash@),
{
    match existing_attachment(names, hash) {
        Some(n) => n,
        None => attachment_name(date, hash),
    }
}

proof fn lemma_first_attachment_push(names: Seq<Seq<char>>, n: Seq<char>, hash: Seq<char>)
    requires
        first_attachment(names, hash) is None,
        ends_with(n, seq!['-'] + hash + ".webp"@),
    ensures
        first_attachment(names.push(n), hash) == Some(n),
    decreases names.len(),
{
    if names.len() > 0 {
        assert(names.push(n)[0] == names[0]);
        assert(names.push(n).drop_first() =~= names.drop_first().push(n));
        lemma_first_attachment_push(names.drop_first(), n, hash);
    } else {
        assert(names.push(n)[0] == n);
    }
}

/// The same image is stored once: once an attachment is stored under the
/// name chosen for it, pasting the same content again, on any day, chooses
/// that same name.
pub proof fn law_attachment_stored_once(names: Seq<Seq<char>>, date: Seq<char>, later: Seq<char>, hash: Seq<char>)
    ensures
        ({
            let n = attachment_choice(names, date, hash);
            let after = if first_attachment(names, hash) is Some {
                names
            } else {
                names.push(n)
            };
            attachment_choice(after, later, hash) == n
        }),
{
    if first_attachment(names, hash) is None {
        let n = attachment_file(date, hash);
        let suffix = seq!['-'] + hash + ".webp"@;
        assert(n =~= date + suffix);
        assert(n.subrange(n.len() - suffix.len(), n.len() as int) =~= suffix);
        lemma_first_attachment_push(names, n, hash);
    }
}

} // verus!
