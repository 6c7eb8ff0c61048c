use photomem::sync::{git_failure, message_for, GitCall, PullNext, PullStage, Repo, SaveNext, Synced};

fn ok(s: &str) -> Result<String, String> {
    Ok(s.to_string())
}

fn err(s: &str) -> Result<String, String> {
    Err(s.to_string())
}

#[test]
fn commit_subjects_stay_one_short_line() {
    assert_eq!(message_for("Kafka poll tuning"), "Kafka poll tuning");
    assert_eq!(message_for("Title\nand the body"), "Title");
    assert_eq!(message_for("   "), "note");

    let long = "a note whose title just keeps going and going well past the point of usefulness";
    let msg = message_for(long);
    assert!(msg.chars().count() <= 61, "{msg:?}");
    assert!(msg.ends_with('…'));
    assert!(long.starts_with(msg.trim_end_matches('…')));
}

#[test]
fn a_long_word_is_cut_where_it_must_be() {
    let long = "x".repeat(70);
    let msg = message_for(&long);
    assert_eq!(msg, format!("{}…", "x".repeat(60)));
}

#[test]
fn a_vault_without_git_is_not_a_repo() {
    assert!(Repo::open("/tmp/vault", false).is_none());
    assert!(Repo::open("/tmp/vault", true).is_some());
}

#[test]
fn commands_run_in_the_vault_without_prompting() {
    let repo = Repo::open("/home/me/notes", true).unwrap();
    let args = repo.command(GitCall::Commit, "Kafka poll tuning");
    assert_eq!(
        args,
        [
            "-C",
            "/home/me/notes",
            "-c",
            "core.sshCommand=ssh -o ConnectTimeout=10 -o BatchMode=yes",
            "commit",
            "-m",
            "Kafka poll tuning"
        ]
    );
    assert_eq!(repo.command(GitCall::Status, "")[4..], ["status", "--porcelain"]);
}

#[test]
fn saving_commits_and_reports_no_remote() {
    let mut next = Repo::save_start();
    let mut calls = Vec::new();
    let outcome = loop {
        match next {
            SaveNext::Run(call) => {
                calls.push(call);
                let out = match call {
                    GitCall::Status => ok(" M notes/one.md\n"),
                    GitCall::Upstream => err("git rev-parse: no upstream configured"),
                    _ => ok(""),
                };
                next = Repo::save(call, out);
            }
            SaveNext::Done(o) => break o,
        }
    };
    assert_eq!(outcome, Ok(Synced::Committed));
    assert_eq!(calls, [GitCall::Status, GitCall::AddAll, GitCall::Commit, GitCall::Upstream]);
}

#[test]
fn saving_an_unchanged_vault_does_nothing() {
    assert_eq!(Repo::save(GitCall::Status, ok("\n  \n")), SaveNext::Done(Ok(Synced::Nothing)));
    assert!(!Repo::is_dirty(""));
    assert!(Repo::is_dirty("?? notes/new.md"));
}

#[test]
fn saving_pushes_when_there_is_an_upstream() {
    assert_eq!(Repo::save(GitCall::Upstream, ok("origin/main\n")), SaveNext::Run(GitCall::PullRebase));
    assert_eq!(Repo::save(GitCall::PullRebase, ok("")), SaveNext::Run(GitCall::Push));
    assert_eq!(Repo::save(GitCall::Push, ok("")), SaveNext::Done(Ok(Synced::Pushed)));
    assert_eq!(
        Repo::save(GitCall::Push, err("git push: rejected")),
        SaveNext::Done(Err("git push: rejected".to_string()))
    );
    assert!(Repo::has_upstream(&ok("origin/main")));
    assert!(!Repo::has_upstream(&err("none")));
}

#[test]
fn pulling_reports_whether_anything_arrived() {
    assert_eq!(Repo::pull(PullStage::Upstream, err("none")), PullNext::Done(Ok(false)));
    assert_eq!(Repo::pull_start(), PullNext::Run(GitCall::Upstream, PullStage::Upstream));
    assert_eq!(
        Repo::pull(PullStage::Upstream, ok("origin/main")),
        PullNext::Run(GitCall::Head, PullStage::HeadBefore)
    );
    assert_eq!(
        Repo::pull(PullStage::HeadBefore, ok("abc\n")),
        PullNext::Run(GitCall::PullRebase, PullStage::Pulled("abc\n".to_string()))
    );
    assert_eq!(
        Repo::pull(PullStage::Pulled("abc\n".to_string()), ok("")),
        PullNext::Run(GitCall::Head, PullStage::HeadAfter("abc\n".to_string()))
    );
    assert_eq!(Repo::pull(PullStage::HeadAfter("abc\n".to_string()), ok("abc\n")), PullNext::Done(Ok(false)));
    assert_eq!(Repo::pull(PullStage::HeadAfter("abc\n".to_string()), ok("def\n")), PullNext::Done(Ok(true)));
    assert_eq!(
        Repo::pull(PullStage::HeadBefore, err("git rev-parse: bad")),
        PullNext::Done(Err("git rev-parse: bad".to_string()))
    );
}

#[test]
fn a_failure_names_the_command_and_the_last_thing_git_said() {
    assert_eq!(git_failure("push", "hint: one\nfatal: no route to host  \n"), "git push: fatal: no route to host");
    assert_eq!(git_failure("pull", ""), "git pull: git failed");
}
