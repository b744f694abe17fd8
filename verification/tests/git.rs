use guit::common::{Branch, BranchArea, BranchSet, Branches, Diff, DiffArea, DiffKey, LineType, RepoAction};
use guit::git::{toplevel_from, Followup, GitCommand};

#[test]
fn git_command_args_log() {
    assert_eq!(
        GitCommand::LogMaxCountSkip(250).args(),
        vec![
            "log",
            "--max-count",
            "100",
            "--skip",
            "250",
            "--format=%an\u{1f}%aI\u{1f}%as\u{1f}%H\u{1f}%h\u{1f}%s\u{1f}%b%x00",
        ]
    );
    assert_eq!(GitCommand::LogMaxCountSkip(0).args()[4], "0");
}

#[test]
fn git_command_args_others() {
    assert_eq!(
        GitCommand::SwitchCreateRemote("feature".to_string(), "origin".to_string()).args(),
        vec!["switch", "--create", "feature", "origin/feature"]
    );
    assert_eq!(
        GitCommand::CommitBody("subject".to_string(), "body".to_string()).args(),
        vec!["commit", "-m", "subject", "-m", "body"]
    );
    assert_eq!(
        GitCommand::DiffNumstatStaged("a b".to_string()).args(),
        vec!["diff", "--numstat", "--staged", "a b"]
    );
    assert_eq!(GitCommand::Init.args(), vec!["init", "-b", "main"]);
    assert_eq!(GitCommand::ResetSoftHead1.args(), vec!["reset", "--soft", "HEAD~1"]);
    assert_eq!(GitCommand::RestoreStagedAll.args(), vec!["restore", "--staged", "."]);
}

#[test]
fn repo_action_plan() {
    let key = |area| DiffKey { path: "f".to_string(), area };

    let (command, followup) = RepoAction::AddOrRestore(key(DiffArea::Untracked)).plan();
    assert_eq!(command.unwrap().args(), vec!["add", "f"]);
    assert_eq!(followup, Followup::Refresh);

    let (command, _) = RepoAction::AddOrRestore(key(DiffArea::Staged)).plan();
    assert_eq!(command.unwrap().args(), vec!["restore", "--staged", "f"]);

    let remote = Branch { name: "x".to_string(), area: BranchArea::Remote("up".to_string()) };
    let (command, _) = RepoAction::Switch(remote).plan();
    assert_eq!(command.unwrap().args(), vec!["switch", "--create", "x", "up/x"]);

    let local = Branch { name: "x".to_string(), area: BranchArea::Local };
    let (command, _) = RepoAction::Switch(local).plan();
    assert_eq!(command.unwrap().args(), vec!["switch", "x"]);

    let (command, followup) = RepoAction::LoadLogs.plan();
    assert!(command.is_none());
    assert_eq!(followup, Followup::LoadLogs);

    let (command, followup) = RepoAction::Refresh.plan();
    assert!(command.is_none());
    assert_eq!(followup, Followup::Refresh);

    let (command, _) = RepoAction::StashPush.plan();
    assert_eq!(command.unwrap().args(), vec!["stash", "push", "--include-untracked"]);

    let (command, _) = RepoAction::StashPop.plan();
    assert_eq!(command.unwrap().args(), vec!["stash", "pop", "--index"]);

    let (command, _) = RepoAction::AddAll.plan();
    assert_eq!(command.unwrap().args(), vec!["add", "--all"]);

    let (command, _) = RepoAction::RestoreAll.plan();
    assert_eq!(command.unwrap().args(), vec!["restore", "--staged", "."]);
}

#[test]
fn commit_plan_with_and_without_body() {
    let (command, followup) = RepoAction::Commit("subject".to_string(), None).plan();
    assert_eq!(command.unwrap().args(), vec!["commit", "-m", "subject"]);
    assert_eq!(followup, Followup::Refresh);

    let (command, _) =
        RepoAction::Commit("subject".to_string(), Some("body".to_string())).plan();
    assert_eq!(command.unwrap().args(), vec!["commit", "-m", "subject", "-m", "body"]);
}

#[test]
fn diff_key_diff_commands() {
    let key = |area| DiffKey { path: "p".to_string(), area };

    assert!(key(DiffArea::Untracked).diff_commands().is_none());
    let (hunks, numstat) = key(DiffArea::Unstaged).diff_commands().unwrap();
    assert_eq!(hunks.args(), vec!["diff", "p"]);
    assert_eq!(numstat.args(), vec!["diff", "--numstat", "p"]);
    let (hunks, numstat) = key(DiffArea::Staged).diff_commands().unwrap();
    assert_eq!(hunks.args(), vec!["diff", "--staged", "p"]);
    assert_eq!(numstat.args(), vec!["diff", "--numstat", "--staged", "p"]);
}

#[test]
fn toplevel_from_trims_trailing_ascii_whitespace() {
    assert_eq!(toplevel_from(b"/home/me/repo \r\n\t"), "/home/me/repo");
    assert_eq!(toplevel_from(b"  /x"), "  /x");
    assert_eq!(toplevel_from(b"\n"), "");
}

#[test]
fn line_type_by_first_character() {
    assert_eq!(LineType::of("+new"), LineType::Addition);
    assert_eq!(LineType::of("-old"), LineType::Deletion);
    assert_eq!(LineType::of(" same"), LineType::Context);
    assert_eq!(LineType::of(""), LineType::Context);
}

#[test]
fn diff_untracked_keeps_all_lines() {
    match Diff::untracked("a\r\n\nb") {
        Diff::String(diff) => assert_eq!(diff.lines, vec!["a", "", "b"]),
        _ => panic!("expected the lines of the file"),
    }
}

#[test]
fn branches_matching_ignores_case() {
    let mut other = BranchSet::new();
    for name in ["Feature/Login", "main", "FEATURE-x", "dev"] {
        other.insert(Branch { name: name.to_string(), area: BranchArea::Local });
    }
    let branches = Branches { current: "main".to_string(), other };

    let names: Vec<&str> = branches.matching("feaTure").iter().map(|b| b.name.as_str()).collect();
    assert_eq!(names, vec!["FEATURE-x", "Feature/Login"]);
    assert_eq!(branches.matching("").len(), 4);
    assert!(branches.matching("zzz").is_empty());
}
