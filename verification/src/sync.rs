//! Git sync for the vault, as the decisions between git invocations.
//!
//! Sync drives the `git` binary rather than linking a git library, so that it
//! honours the SSH keys, credential helpers, `commit.gpgsign` and `.gitignore`
//! the user's own `git` does. Running a command is the caller's part; this
//! module says which command comes next and what the outcome of a save or a
//! pull was, given what each command gave back.
//!
//! Everything here is best-effort. A failed sync never costs a note: the note
//! is on disk before any of this runs, and every error surfaces as a status
//! line rather than a lost capture.
use vstd::prelude::*;
use crate::text::{
    chars_of, lemma_back_ws, lemma_next_nl, lemma_skip_ws, lines, lines_of, next_newline, next_nl, push_str, slice_of, string_of, trim, trim_start, trim_vec,
};

verus! {

// ---------------------------------------------------------------------------
// Commit messages.
// ---------------------------------------------------------------------------

/// Longest commit subject, in characters, before it is cut.
pub const MAX_SUBJECT: usize = 60;

/// The first line of a title, trimmed.
pub open spec fn subject_line(title: Seq<char>) -> Seq<char> {
    trim(title.subrange(0, next_nl(title, 0)))
}

/// Index of the last space in `s`.
pub open spec fn last_space(s: Seq<char>) -> Option<int>
    decreases s.len(),
{
    if s.len() == 0 {
        None
    } else if s.last() == ' ' {
        Some(s.len() - 1)
    } else {
        last_space(s.drop_last())
    }
}

/// A one-line commit subject for a saved note: the title's first line,
/// trimmed; `note` when that is empty; and when it is longer than
/// `MAX_SUBJECT` characters, cut to that many, back to the last space among
/// them if there is one, and ended with `…`.
pub open spec fn message_of(title: Seq<char>) -> Seq<char> {
    let s = subject_line(title);
    if s.len() == 0 {
        "note"@
    } else if s.len() <= MAX_SUBJECT {
        s
    } else {
        let cut = s.subrange(0, MAX_SUBJECT as int);
        let head = match last_space(cut) {
            Some(i) => cut.subrange(0, i),
            None => cut,
        };
        head.push('…')
    }
}

proof fn lemma_last_space(s: Seq<char>)
    ensures
        last_space(s) matches Some(i) ==> 0 <= i < s.len() && s[i] == ' ' && forall|k: int|
            i < k < s.len() ==> s[k] != ' ',
        last_space(s) is None ==> forall|k: int| 0 <= k < s.len() ==> s[k] != ' ',
    decreases s.len(),
{
    if s.len() > 0 {
        lemma_last_space(s.drop_last());
        if s.last() != ' ' {
            assert forall|k: int| 0 <= k < s.len() - 1 implies s.drop_last()[k] == s[k] by {}
            assert(s.last() == s[s.len() - 1]);
        }
    }
}

/// Index of the last space in `s`.
fn last_space_in(s: &[char]) -> (r: Option<usize>)
    ensures
        r is None <==> last_space(s@) is None,
        r matches Some(i) ==> last_space(s@) == Some(i as int),
{
    let mut j = s.len();
    assert(s@.subrange(0, j as int) =~= s@);
    while j > 0
        invariant
            j <= s@.len(),
            last_space(s@.subrange(0, j as int)) == last_space(s@),
        decreases j,
    {
        assert(s@.subrange(0, j as int).drop_last() =~= s@.subrange(0, j - 1));
        if s[j - 1] == ' ' {
            return Some(j - 1);
        }
        j -= 1;
    }
    None
}

/// A one-line commit message for a saved note. Git treats the first line as
/// the subject, so a long or wrapping title would otherwise make a subject
/// that is a paragraph.
pub fn message_for(title: &str) -> (r: String)
    ensures
        r@ == message_of(title@),
        r@.len() <= MAX_SUBJECT + 1,
        !r@.contains('\n'),
{
    let t = chars_of(title);
    let p = next_newline(t.as_slice(), 0);
    proof {
        lemma_next_nl(t@, 0);
    }
    let first = slice_of(t.as_slice(), 0, p);
    let s = trim_vec(first.as_slice());
    proof {
        lemma_skip_ws(first@, 0);
        let a = crate::text::skip_ws(first@, 0);
        lemma_back_ws(trim_start(first@), trim_start(first@).len() as int);
        assert forall|k: int| 0 <= k < s@.len() implies s@[k] != '\n' by {
            assert(s@[k] == first@[a + k]);
        }
    }
    if s.len() == 0 {
        proof {
            reveal_strlit("note");
        }
        return String::from_str("note");
    }
    if s.len() <= MAX_SUBJECT {
        return string_of(s.as_slice());
    }
    let cut = slice_of(s.as_slice(), 0, MAX_SUBJECT);
    let sp = last_space_in(cut.as_slice());
    proof {
        lemma_last_space(cut@);
    }
    let mut head = match sp {
        Some(i) => slice_of(cut.as_slice(), 0, i),
        None => cut,
    };
    head.push('…');
    assert(!head@.contains('\n')) by {
        assert forall|k: int| 0 <= k < head@.len() implies head@[k] != '\n' by {
            if k < head@.len() - 1 {
                assert(head@[k] == s@[k]);
            }
        }
    }
    string_of(head.as_slice())
}

// ---------------------------------------------------------------------------
// Driving git.
// ---------------------------------------------------------------------------

/// Given to `ssh` so a dead network cannot hang a sync forever: a push to an
/// unreachable host would otherwise hold the sync lock until the process
/// exits.
pub const SSH_COMMAND: &'static str = "core.sshCommand=ssh -o ConnectTimeout=10 -o BatchMode=yes";

/// A vault that is under git.
pub struct Repo {
    root: String,
}

/// What a sync did, so the UI can say something true.
/// The subject line of a title holds no line break.
proof fn lemma_subject_line(title: Seq<char>)
    ensures
        !subject_line(title).contains('\n'),
{
    lemma_next_nl(title, 0);
    let first = title.subrange(0, next_nl(title, 0));
    lemma_skip_ws(first, 0);
    let a = crate::text::skip_ws(first, 0);
    lemma_back_ws(trim_start(first), trim_start(first).len() as int);
    let s = subject_line(title);
    assert forall|k: int| 0 <= k < s.len() implies s[k] != '\n' by {
        assert(s[k] == first[a + k]);
    }
}

/// A commit subject is one line of at most `MAX_SUBJECT` characters and an
/// ellipsis: `note` for a title with an empty first line, that line itself
/// when it fits, and otherwise a prefix of it ended with `…`.
pub proof fn law_message_bounds(title: Seq<char>)
    ensures
        !message_of(title).contains('\n'),
        message_of(title).len() <= MAX_SUBJECT + 1,
        subject_line(title).len() == 0 ==> message_of(title) == "note"@,
        0 < subject_line(title).len() <= MAX_SUBJECT ==> message_of(title) == subject_line(title),
        subject_line(title).len() > MAX_SUBJECT ==> {
            &&& message_of(title).last() == '…'
            &&& message_of(title).drop_last().is_prefix_of(subject_line(title))
        },
{
    reveal_strlit("note");
    lemma_subject_line(title);
    let s = subject_line(title);
    if s.len() > MAX_SUBJECT {
        let cut = s.subrange(0, MAX_SUBJECT as int);
        lemma_last_space(cut);
        let head = match last_space(cut) {
            Some(i) => cut.subrange(0, i),
            None => cut,
        };
        let m = message_of(title);
        assert(m == head.push('…'));
        assert(m.drop_last() =~= head);
        assert forall|k: int| 0 <= k < m.len() implies m[k] != '\n' by {
            if k < head.len() {
                assert(m[k] == s[k]);
            }
        }
    }
}

/// A long subject keeps as many whole words as fit: of its first
/// `MAX_SUBJECT` characters, it keeps those before the last space among
/// them, or all of them when there is no space, and then `…`.
pub proof fn law_message_cut(title: Seq<char>)
    requires
        subject_line(title).len() > MAX_SUBJECT,
    ensures
        ({
            let cut = subject_line(title).subrange(0, MAX_SUBJECT as int);
            let m = message_of(title);
            let k = m.len() - 1;
            &&& m.last() == '…'
            &&& (forall|j: int| 0 <= j < MAX_SUBJECT ==> cut[j] != ' ') ==> m == cut.push('…')
            &&& (exists|j: int| 0 <= j < MAX_SUBJECT && cut[j] == ' ') ==> {
                &&& 0 <= k < MAX_SUBJECT
                &&& cut[k] == ' '
                &&& m.drop_last() == cut.subrange(0, k)
                &&& forall|j: int| k < j < MAX_SUBJECT ==> cut[j] != ' '
            }
        }),
{
    let cut = subject_line(title).subrange(0, MAX_SUBJECT as int);
    lemma_last_space(cut);
    let m = message_of(title);
    match last_space(cut) {
        Some(i) => {
            assert(m == cut.subrange(0, i).push('…'));
            assert(m.drop_last() =~= cut.subrange(0, i));
        },
        None => {},
    }
}

#[derive(Debug, Clone, Copy, PartialEq, Eq)]
pub enum Synced {
    /// Nothing had changed.
    Nothing,
    /// Committed locally; the vault has no remote to push to.
    Committed,
    /// Committed and pushed.
    Pushed,
}

/// The git commands sync runs.
#[derive(Debug, Clone, Copy, PartialEq, Eq)]
pub enum GitCall {
    /// `status --porcelain`: is there anything to record?
    Status,
    /// `add -A`.
    AddAll,
    /// `commit -m <message>`.
    Commit,
    /// `rev-parse --abbrev-ref --symbolic-full-name @{upstream}`: does the
    /// branch track a remote one?
    Upstream,
    /// `pull --rebase --autostash`.
    PullRebase,
    /// `push`.
    Push,
    /// `rev-parse HEAD`.
    Head,
}

/// What to do next in a save: run a command, or report the outcome.
#[derive(Debug, PartialEq, Eq)]
pub enum SaveNext {
    Run(GitCall),
    Done(Result<Synced, String>),
}

/// Where a pull stands, with the commit it started from once that is known.
#[derive(Debug, Clone, PartialEq, Eq)]
pub enum PullStage {
    Upstream,
    HeadBefore,
    Pulled(String),
    HeadAfter(String),
}

/// What to do next in a pull: run a command and go on at a stage, or report
/// whether anything arrived.
#[derive(Debug, PartialEq, Eq)]
pub enum PullNext {
    Run(GitCall, PullStage),
    Done(Result<bool, String>),
}

/// The arguments of a command after `git` and the repository options.
pub open spec fn call_args(call: GitCall, message: Seq<char>) -> Seq<Seq<char>> {
    match call {
        GitCall::Status => seq!["status"@, "--porcelain"@],
        GitCall::AddAll => seq!["add"@, "-A"@],
        GitCall::Commit => seq!["commit"@, "-m"@, message],
        GitCall::Upstream => seq![
            "rev-parse"@,
            "--abbrev-ref"@,
            "--symbolic-full-name"@,
            "@{upstream}"@,
        ],
        GitCall::PullRebase => seq!["pull"@, "--rebase"@, "--autostash"@],
        GitCall::Push => seq!["push"@],
        GitCall::Head => seq!["rev-parse"@, "HEAD"@],
    }
}

/// The text of each string.
pub open spec fn texts(v: Seq<String>) -> Seq<Seq<char>> {
    Seq::new(v.len(), |i: int| v[i]@)
}

/// Whether `git status --porcelain` printed anything git would record.
pub open spec fn dirty(porcelain: Seq<char>) -> bool {
    trim(porcelain).len() > 0
}

/// A save's next step after `call` gave back `out`: standard output when the
/// command succeeded, the failure text when it did not.
pub open spec fn save_after(call: GitCall, out: Result<Seq<char>, Seq<char>>) -> Option<GitCall> {
    match (call, out) {
        (GitCall::Status, Ok(s)) => if dirty(s) {
            Some(GitCall::AddAll)
        } else {
            None
        },
        (GitCall::AddAll, Ok(_)) => Some(GitCall::Commit),
        (GitCall::Commit, Ok(_)) => Some(GitCall::Upstream),
        (GitCall::Upstream, Ok(_)) => Some(GitCall::PullRebase),
        (GitCall::PullRebase, Ok(_)) => Some(GitCall::Push),
        _ => None,
    }
}

/// A save's outcome when `call` giving back `out` ends it.
pub open spec fn save_outcome(call: GitCall, out: Result<Seq<char>, Seq<char>>) -> Result<
    Synced,
    Seq<char>,
> {
    match (call, out) {
        (GitCall::Status, Ok(_)) => Ok(Synced::Nothing),
        (GitCall::Upstream, Err(_)) => Ok(Synced::Committed),
        (GitCall::Push, Ok(_)) => Ok(Synced::Pushed),
        (_, Err(e)) => Err(e),
        _ => Ok(Synced::Pushed),
    }
}

/// The view of a command's result.
pub open spec fn out_view(out: Result<String, String>) -> Result<Seq<char>, Seq<char>> {
    match out {
        Ok(s) => Ok(s@),
        Err(e) => Err(e@),
    }
}

/// The view of a save's outcome.
pub open spec fn synced_view(r: Result<Synced, String>) -> Result<Synced, Seq<char>> {
    match r {
        Ok(s) => Ok(s),
        Err(e) => Err(e@),
    }
}

/// A pull's next command and stage after the command run at `stage` gave
/// back `out`, if the pull goes on.
pub open spec fn pull_after(stage: PullStage, out: Result<String, String>) -> Option<(GitCall, PullStage)> {
    match (stage, out) {
        (PullStage::Upstream, Ok(_)) => Some((GitCall::Head, PullStage::HeadBefore)),
        (PullStage::HeadBefore, Ok(h)) => Some((GitCall::PullRebase, PullStage::Pulled(h))),
        (PullStage::Pulled(b), Ok(_)) => Some((GitCall::Head, PullStage::HeadAfter(b))),
        _ => None,
    }
}

/// A pull's outcome when the command run at `stage` giving back `out` ends
/// it.
pub open spec fn pull_outcome(stage: PullStage, out: Result<String, String>) -> Result<bool, Seq<char>> {
    match (stage, out) {
        (PullStage::Upstream, Err(_)) => Ok(false),
        (PullStage::HeadAfter(b), Ok(h)) => Ok(h@ != b@),
        (_, Err(e)) => Err(e@),
        _ => Ok(false),
    }
}

/// The view of a pull's outcome.
pub open spec fn pulled_view(r: Result<bool, String>) -> Result<bool, Seq<char>> {
    match r {
        Ok(b) => Ok(b),
        Err(e) => Err(e@),
    }
}

/// The commands a save runs from `call` on when they give back `outs` in
/// turn, and its outcome, which is `None` where `outs` runs out first.
pub open spec fn save_run(call: GitCall, outs: Seq<Result<Seq<char>, Seq<char>>>) -> (
    Seq<GitCall>,
    Option<Result<Synced, Seq<char>>>,
)
    decreases outs.len(),
{
    if outs.len() == 0 {
        (Seq::empty(), None)
    } else {
        match save_after(call, outs[0]) {
            Some(c) => {
                let rest = save_run(c, outs.drop_first());
                (seq![call] + rest.0, rest.1)
            },
            None => (seq![call], Some(save_outcome(call, outs[0]))),
        }
    }
}

/// The commands a pull runs from `stage` on when they give back `outs` in
/// turn, and its outcome, which is `None` where `outs` runs out first.
pub open spec fn pull_run(call: GitCall, stage: PullStage, outs: Seq<Result<String, String>>) -> (
    Seq<GitCall>,
    Option<Result<bool, Seq<char>>>,
)
    decreases outs.len(),
{
    if outs.len() == 0 {
        (Seq::empty(), None)
    } else {
        match pull_after(stage, outs[0]) {
            Some((c, st)) => {
                let rest = pull_run(c, st, outs.drop_first());
                (seq![call] + rest.0, rest.1)
            },
            None => (seq![call], Some(pull_outcome(stage, outs[0]))),
        }
    }
}

/// Every command of a save, in the order a save that goes all the way runs
/// them.
pub open spec fn save_order() -> Seq<GitCall> {
    seq![
        GitCall::Status,
        GitCall::AddAll,
        GitCall::Commit,
        GitCall::Upstream,
        GitCall::PullRebase,
        GitCall::Push,
    ]
}

/// Every command of a pull, in the order a pull that goes all the way runs
/// them.
pub open spec fn pull_order() -> Seq<GitCall> {
    seq![GitCall::Upstream, GitCall::Head, GitCall::PullRebase, GitCall::Head]
}

/// A whole save, from `save_start` through `save`, where the commands give
/// back `outs` in turn. The commands run are a prefix of status, add,
/// commit, upstream, pull and push, so there is one commit and it comes
/// before any pull or push. An unchanged tree runs nothing after the
/// status and reports `Nothing`; a changed one with no upstream reports
/// `Committed`, and with one, once everything succeeded, `Pushed`. Any
/// other end is the failure of the last command run, with its text, and
/// every command before it succeeded.
pub proof fn law_save_run(outs: Seq<Result<Seq<char>, Seq<char>>>)
    requires
        save_run(GitCall::Status, outs).1 is Some,
    ensures
        ({
            let (calls, o) = save_run(GitCall::Status, outs);
            let n = calls.len() as int;
            let clean = outs[0] matches Ok(st) && !dirty(st);
            let changed = outs[0] matches Ok(st) && dirty(st);
            &&& 1 <= n <= 6
            &&& n <= outs.len()
            &&& calls == save_order().take(n)
            &&& forall|i: int| 0 <= i < n - 1 ==> outs[i] is Ok
            &&& o == Some(Ok::<Synced, Seq<char>>(Synced::Nothing)) <==> clean
            &&& clean ==> n == 1
            &&& o == Some(Ok::<Synced, Seq<char>>(Synced::Committed)) <==> (changed && n == 4
                && outs[1] is Ok && outs[2] is Ok && outs[3] is Err)
            &&& o == Some(Ok::<Synced, Seq<char>>(Synced::Pushed)) <==> (changed && n == 6 && forall|
                i: int,
            | 1 <= i < 6 ==> outs[i] is Ok)
            &&& o matches Some(Err(e)) ==> (outs[n - 1] == Err::<Seq<char>, Seq<char>>(e) && !(n == 4
                && changed))
        }),
{
    reveal_with_fuel(save_run, 7);
    let o0 = outs;
    if outs.len() >= 2 {
        let o1 = outs.drop_first();
        assert(o1[0] == outs[1]);
        if o1.len() >= 2 {
            let o2 = o1.drop_first();
            assert(o2[0] == outs[2]);
            if o2.len() >= 2 {
                let o3 = o2.drop_first();
                assert(o3[0] == outs[3]);
                if o3.len() >= 2 {
                    let o4 = o3.drop_first();
                    assert(o4[0] == outs[4]);
                    if o4.len() >= 2 {
                        let o5 = o4.drop_first();
                        assert(o5[0] == outs[5]);
                    }
                }
            }
        }
    }
    assert(save_order().take(1) =~= seq![GitCall::Status]);
    assert(save_order().take(2) =~= seq![GitCall::Status, GitCall::AddAll]);
    assert(save_order().take(3) =~= seq![GitCall::Status, GitCall::AddAll, GitCall::Commit]);
    assert(save_order().take(4) =~= seq![GitCall::Status, GitCall::AddAll, GitCall::Commit, GitCall::Upstream]);
    assert(save_order().take(5) =~= seq![
        GitCall::Status,
        GitCall::AddAll,
        GitCall::Commit,
        GitCall::Upstream,
        GitCall::PullRebase,
    ]);
    assert(save_order().take(6) =~= save_order());
}

/// A whole pull, from `pull_start` through `pull`, where the commands give
/// back `outs` in turn. The commands run are a prefix of upstream, head,
/// pull and head. With no upstream nothing more runs and nothing arrived;
/// otherwise, once everything succeeded, something arrived exactly when
/// the head after the pull differs from the head before it. Any other end
/// is the failure of the last command run, with its text, and every
/// command before it succeeded.
pub proof fn law_pull_run(outs: Seq<Result<String, String>>)
    requires
        pull_run(GitCall::Upstream, PullStage::Upstream, outs).1 is Some,
    ensures
        ({
            let (calls, o) = pull_run(GitCall::Upstream, PullStage::Upstream, outs);
            let n = calls.len() as int;
            &&& 1 <= n <= 4
            &&& n <= outs.len()
            &&& calls == pull_order().take(n)
            &&& forall|i: int| 0 <= i < n - 1 ==> outs[i] is Ok
            &&& outs[0] is Err ==> n == 1 && o == Some(Ok::<bool, Seq<char>>(false))
            &&& outs[0] is Ok ==> (o matches Some(Ok(b)) ==> n == 4 && outs[3] is Ok && b == (
                outs[3]->Ok_0@ != outs[1]->Ok_0@))
            &&& o matches Some(Err(e)) ==> (2 <= n && outs[n - 1] is Err && outs[n - 1]->Err_0@ == e)
        }),
{
    reveal_with_fuel(pull_run, 5);
    if outs.len() >= 2 {
        let o1 = outs.drop_first();
        assert(o1[0] == outs[1]);
        if o1.len() >= 2 {
            let o2 = o1.drop_first();
            assert(o2[0] == outs[2]);
            if o2.len() >= 2 {
                let o3 = o2.drop_first();
                assert(o3[0] == outs[3]);
            }
        }
    }
    assert(pull_order().take(1) =~= seq![GitCall::Upstream]);
    assert(pull_order().take(2) =~= seq![GitCall::Upstream, GitCall::Head]);
    assert(pull_order().take(3) =~= seq![GitCall::Upstream, GitCall::Head, GitCall::PullRebase]);
    assert(pull_order().take(4) =~= pull_order());
}

/// Appends a copy of a literal.
fn push_lit(v: &mut Vec<String>, s: &str)
    ensures
        texts(final(v)@) == texts(old(v)@).push(s@),
{
    let ghost pre = v@;
    v.push(String::from_str(s));
    assert(texts(v@) =~= texts(pre).push(s@));
}

impl Repo {
    /// The vault's root directory.
    pub closed spec fn root_text(&self) -> Seq<char> {
        self.root@
    }

    /// The vault at `root` as a repository, or `None` if it is not one:
    /// `has_git_dir` says whether `root/.git` exists. Not being a git repo is
    /// the normal state of a new vault; sync is turned on by `git init`.
    pub fn open(root: &str, has_git_dir: bool) -> (r: Option<Repo>)
        ensures
            r is Some <==> has_git_dir,
            r matches Some(repo) ==> repo.root_text() == root@,
    {
        if has_git_dir {
            Some(Repo { root: String::from_str(root) })
        } else {
            None
        }
    }

    /// The full argument list for `git` to run `call` in this repository,
    /// with no terminal prompt able to stop it: `-C <root> -c
    /// core.sshCommand=…` and then the command.
    pub fn command(&self, call: GitCall, message: &str) -> (r: Vec<String>)
        ensures
            texts(r@) == seq!["-C"@, self.root_text(), "-c"@, SSH_COMMAND@] + call_args(
                call,
                message@,
            ),
    {
        let mut v: Vec<String> = Vec::new();
        push_lit(&mut v, "-C");
        push_lit(&mut v, self.root.as_str());
        push_lit(&mut v, "-c");
        push_lit(&mut v, SSH_COMMAND);
        match call {
            GitCall::Status => {
                push_lit(&mut v, "status");
                push_lit(&mut v, "--porcelain");
            },
            GitCall::AddAll => {
                push_lit(&mut v, "add");
                push_lit(&mut v, "-A");
            },
            GitCall::Commit => {
                push_lit(&mut v, "commit");
                push_lit(&mut v, "-m");
                push_lit(&mut v, message);
            },
            GitCall::Upstream => {
                push_lit(&mut v, "rev-parse");
                push_lit(&mut v, "--abbrev-ref");
                push_lit(&mut v, "--symbolic-full-name");
                push_lit(&mut v, "@{upstream}");
            },
            GitCall::PullRebase => {
                push_lit(&mut v, "pull");
                push_lit(&mut v, "--rebase");
                push_lit(&mut v, "--autostash");
            },
            GitCall::Push => {
                push_lit(&mut v, "push");
            },
            GitCall::Head => {
                push_lit(&mut v, "rev-parse");
                push_lit(&mut v, "HEAD");
            },
        }
        assert(texts(v@) =~= seq!["-C"@, self.root_text(), "-c"@, SSH_COMMAND@] + call_args(
            call,
            message@,
        ));
        v
    }

    /// Whether the working tree has anything git would record, from what
    /// `git status --porcelain` printed. Checked before committing, so an
    /// unchanged vault makes no empty commit.
    pub fn is_dirty(porcelain: &str) -> (r: bool)
        ensures
            r == dirty(porcelain@),
    {
        let s = chars_of(porcelain);
        let t = trim_vec(s.as_slice());
        t.len() > 0
    }

    /// Whether the branch tracks a remote one, from how the upstream query
    /// ended. A repository with no remote is a good setup too: versioned,
    /// just not shared.
    pub fn has_upstream(upstream: &Result<String, String>) -> (r: bool)
        ensures
            r == upstream is Ok,
    {
        upstream.is_ok()
    }

    /// The first step of a save: ask whether there is anything to commit.
    pub fn save_start() -> (r: SaveNext)
        ensures
            r == SaveNext::Run(GitCall::Status),
    {
        SaveNext::Run(GitCall::Status)
    }

    /// A save's next step once `call` has given back `out`. One commit per
    /// save, named after the note; then, where there is an upstream, a
    /// rebase (a merge commit between two machines that each added a file
    /// says nothing worth reading) and a push. A failure ends the save with
    /// its text, except that a missing upstream means there is nowhere to
    /// push.
    pub fn save(call: GitCall, out: Result<String, String>) -> (r: SaveNext)
        ensures
            save_after(call, out_view(out)) matches Some(c) ==> r == SaveNext::Run(c),
            save_after(call, out_view(out)) is None ==> (r matches SaveNext::Done(o) && synced_view(o)
                == save_outcome(call, out_view(out))),
    {
        match (call, out) {
            (GitCall::Status, Ok(s)) => if Self::is_dirty(s.as_str()) {
                SaveNext::Run(GitCall::AddAll)
            } else {
                SaveNext::Done(Ok(Synced::Nothing))
            },
            (GitCall::AddAll, Ok(_)) => SaveNext::Run(GitCall::Commit),
            (GitCall::Commit, Ok(_)) => SaveNext::Run(GitCall::Upstream),
            (GitCall::Upstream, Ok(_)) => SaveNext::Run(GitCall::PullRebase),
            (GitCall::Upstream, Err(_)) => SaveNext::Done(Ok(Synced::Committed)),
            (GitCall::PullRebase, Ok(_)) => SaveNext::Run(GitCall::Push),
            (GitCall::Push, Ok(_)) => SaveNext::Done(Ok(Synced::Pushed)),
            (GitCall::Head, Ok(_)) => SaveNext::Done(Ok(Synced::Pushed)),
            (_, Err(e)) => SaveNext::Done(Err(e)),
        }
    }

    /// The first step of a pull: ask whether there is anywhere to pull from.
    pub fn pull_start() -> (r: PullNext)
        ensures
            r == PullNext::Run(GitCall::Upstream, PullStage::Upstream),
    {
        PullNext::Run(GitCall::Upstream, PullStage::Upstream)
    }

    /// A pull's next step once the command run at `stage` has given back
    /// `out`. With no upstream nothing can arrive; otherwise the head is
    /// read before and after `pull --rebase --autostash`, and the pull
    /// reports whether it moved, since only then is there anything to
    /// reindex. A failure ends the pull with its text.
    pub fn pull(stage: PullStage, out: Result<String, String>) -> (r: PullNext)
        ensures
            (stage, out_view(out)) matches (PullStage::Upstream, Err(_)) ==> r == PullNext::Done(Ok(false)),
            (stage, out) matches (PullStage::Upstream, Ok(_)) ==> r == PullNext::Run(GitCall::Head, PullStage::HeadBefore),
            (stage, out) matches (PullStage::HeadBefore, Ok(h)) ==> (r matches PullNext::Run(
                GitCall::PullRebase,
                PullStage::Pulled(b),
            ) && b@ == h@),
            (stage, out) matches (PullStage::Pulled(b), Ok(_)) ==> (r matches PullNext::Run(
                GitCall::Head,
                PullStage::HeadAfter(b2),
            ) && b2@ == b@),
            (stage, out) matches (PullStage::HeadAfter(b), Ok(h)) ==> r == PullNext::Done(
                Ok(h@ != b@),
            ),
            !(stage is Upstream) && out is Err ==> (r matches PullNext::Done(Err(e)) && Err::<
                Seq<char>,
                Seq<char>,
            >(e@) == out_view(out)),
            pull_after(stage, out) matches Some((c, st)) ==> r == PullNext::Run(c, st),
            pull_after(stage, out) is None ==> (r matches PullNext::Done(o) && pulled_view(o)
                == pull_outcome(stage, out)),
    {
        match (stage, out) {
            (PullStage::Upstream, Err(_)) => PullNext::Done(Ok(false)),
            (PullStage::Upstream, Ok(_)) => PullNext::Run(GitCall::Head, PullStage::HeadBefore),
            (PullStage::HeadBefore, Ok(h)) => PullNext::Run(GitCall::PullRebase, PullStage::Pulled(h)),
            (PullStage::Pulled(b), Ok(_)) => PullNext::Run(GitCall::Head, PullStage::HeadAfter(b)),
            (PullStage::HeadAfter(b), Ok(h)) => {
                let bv = chars_of(b.as_str());
                let hv = chars_of(h.as_str());
                PullNext::Done(Ok(!crate::text::same_chars(hv.as_slice(), bv.as_slice())))
            },
            (_, Err(e)) => PullNext::Done(Err(e)),
        }
    }
}

// ---------------------------------------------------------------------------
// Failures.
// ---------------------------------------------------------------------------

/// The line a failed git command is reported with: `git <command>: ` and the
/// last line it wrote to standard error, trimmed, or `git failed` when it
/// wrote nothing.
pub open spec fn failure_text(command: Seq<char>, stderr: Seq<char>) -> Seq<char> {
    let ls = lines(stderr);
    let last = if ls.len() > 0 {
        ls.last()
    } else {
        "git failed"@
    };
    "git "@ + command + ": "@ + trim(last)
}

/// The report for a failed git command, from its first argument and what it
/// wrote to standard error.
pub fn git_failure(command: &str, stderr: &str) -> (r: String)
    ensures
        r@ == failure_text(command@, stderr@),
{
    let e = chars_of(stderr);
    let ls = lines_of(e.as_slice());
    let last = if ls.len() > 0 {
        let k = ls.len() - 1;
        trim_vec(ls[k].as_slice())
    } else {
        let d = chars_of("git failed");
        trim_vec(d.as_slice())
    };
    let mut out = chars_of("git ");
    push_str(&mut out, command);
    push_str(&mut out, ": ");
    crate::text::push_all(&mut out, last.as_slice());
    string_of(out.as_slice())
}

} // verus!
