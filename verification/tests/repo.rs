use guit::diff::{DiffArea as Area, DiffKey as Key};
use guit::common::{Branch, BranchArea, BranchSet, Diff, DiffArea, DiffKey, StringDiff};
use guit::parser::Log;
use guit::repo::{diff_source, DatedLogs, DiffSource, Diffs, Head, Repo, LOG_MAX_COUNT};
use guit::git::GitCommand;
use std::path::PathBuf;

fn log(short_date: &str, subject: &str) -> Log {
    Log {
        author: "a".to_string(),
        long_date: format!("{}T00:00:00+00:00", short_date),
        short_date: short_date.to_string(),
        long_hash: "h".to_string(),
        short_hash: "h".to_string(),
        subject: subject.to_string(),
        body: None,
    }
}

fn shape(logs: &DatedLogs) -> Vec<(String, Vec<String>)> {
    logs.groups()
        .iter()
        .map(|(date, entries)| (date.clone(), entries.iter().map(|l| l.subject.clone()).collect()))
        .collect()
}

#[test]
fn dated_logs_newest_day_first_entries_in_order() {
    let mut logs = DatedLogs::new();
    Repo::add_log(&mut logs, log("2024-01-14", "one"));
    Repo::add_log(&mut logs, log("2024-01-15", "two"));
    Repo::add_log(&mut logs, log("2024-01-14", "three"));
    Repo::add_log(&mut logs, log("2023-12-31", "four"));

    assert_eq!(
        shape(&logs),
        vec![
            ("2024-01-15".to_string(), vec!["two".to_string()]),
            ("2024-01-14".to_string(), vec!["one".to_string(), "three".to_string()]),
            ("2023-12-31".to_string(), vec!["four".to_string()]),
        ]
    );
}

#[test]
fn repo_loaded_logs_are_added_and_counted() {
    let mut repo = Repo::from_parts(
        PathBuf::from("/r"),
        Diffs::new(),
        Default::default(),
        vec![log("2024-01-02", "b"), log("2024-01-01", "a")],
    );
    assert_eq!(repo.logs_skipped, 0);
    assert_eq!(repo.next_logs_skip(), LOG_MAX_COUNT);

    repo.add_loaded_logs(vec![log("2024-01-01", "older"), log("2023-12-30", "oldest")]);

    assert_eq!(repo.logs_skipped, 2);
    assert_eq!(repo.next_logs_skip(), LOG_MAX_COUNT + 2);
    assert_eq!(
        shape(&repo.dated_logs),
        vec![
            ("2024-01-02".to_string(), vec!["b".to_string()]),
            ("2024-01-01".to_string(), vec!["a".to_string(), "older".to_string()]),
            ("2023-12-30".to_string(), vec!["oldest".to_string()]),
        ]
    );
}

#[test]
fn diffs_ordered_by_path_then_area_and_replaced() {
    let key = |path: &str, area| DiffKey { path: path.to_string(), area };
    let lines = |n: usize| Diff::String(StringDiff { lines: vec!["x".to_string(); n] });
    let mut diffs = Diffs::new();
    diffs.insert(key("b", DiffArea::Staged), lines(1));
    diffs.insert(key("b", DiffArea::Untracked), lines(2));
    diffs.insert(key("a", DiffArea::Unstaged), Diff::Binary);
    diffs.insert(key("b", DiffArea::Staged), lines(3));

    let keys: Vec<(String, DiffArea)> =
        diffs.entries().iter().map(|(k, _)| (k.path.clone(), k.area)).collect();
    assert_eq!(
        keys,
        vec![
            ("a".to_string(), DiffArea::Unstaged),
            ("b".to_string(), DiffArea::Untracked),
            ("b".to_string(), DiffArea::Staged),
        ]
    );
    match diffs.get(&key("b", DiffArea::Staged)) {
        Some(Diff::String(diff)) => assert_eq!(diff.lines.len(), 3),
        _ => panic!("expected the replaced diff"),
    }
    assert!(diffs.get(&key("c", DiffArea::Staged)).is_none());
    assert_eq!(diffs.len(), 3);
}

#[test]
fn branches_from_lists_others_once_local_first() {
    let locals = vec!["main".to_string(), "dev".to_string(), "HEAD".to_string()];
    let remotes = vec![
        ("refs/remotes/origin/HEAD".to_string(), "origin".to_string()),
        ("refs/remotes/origin/main".to_string(), "origin".to_string()),
        ("refs/remotes/origin/dev".to_string(), "origin".to_string()),
        ("refs/remotes/origin/feature".to_string(), "origin".to_string()),
        ("refs/remotes/fork/feature".to_string(), "fork".to_string()),
        ("refs/remotes/other/x".to_string(), "gone".to_string()),
    ];

    let branches = Repo::branches_from(&Head::Branch("main".to_string()), &locals, &remotes);

    assert_eq!(branches.current, "main");
    let listed: Vec<String> = branches.other.as_slice().iter().map(|b| b.to_string()).collect();
    assert_eq!(listed, vec!["dev", "origin/feature"]);
    assert_eq!(branches.other.as_slice()[0].area, BranchArea::Local);
}

#[test]
fn branches_from_detached_head() {
    let none: Vec<String> = Vec::new();
    let refs: Vec<(String, String)> = Vec::new();

    let detached = Repo::branches_from(&Head::Detached(Some("abc123".to_string())), &none, &refs);
    assert_eq!(detached.current, "detached at abc123");
    assert!(detached.other.is_empty());

    let unborn = Repo::branches_from(&Head::Detached(None), &none, &refs);
    assert_eq!(unborn.current, "detached");
}

#[test]
fn branch_set_keeps_first_of_a_name() {
    let mut set = BranchSet::new();
    assert!(set.insert(Branch { name: "b".to_string(), area: BranchArea::Local }));
    assert!(set.insert(Branch { name: "a".to_string(), area: BranchArea::Remote("o".to_string()) }));
    assert!(!set.insert(Branch { name: "b".to_string(), area: BranchArea::Remote("o".to_string()) }));

    let listed: Vec<String> = set.as_slice().iter().map(|b| b.to_string()).collect();
    assert_eq!(listed, vec!["o/a", "b"]);
    assert_eq!(set.len(), 2);
}

#[test]
fn diff_key_staged_predicates() {
    let staged = DiffKey { path: "p".to_string(), area: DiffArea::Staged };
    let untracked = DiffKey { path: "p".to_string(), area: DiffArea::Untracked };

    assert!(DiffKey::is_staged(&&staged));
    assert!(!DiffKey::is_not_staged(&&staged));
    assert!(DiffKey::is_not_staged(&&untracked));
    assert!(staged.less(&DiffKey { path: "q".to_string(), area: DiffArea::Untracked }));
    assert!(untracked.less(&staged));
}

#[test]
fn old_diff_key_predicates() {
    let staged = Key { path: "p".to_string(), area: Area::Staged };
    let unstaged = Key { path: "p".to_string(), area: Area::Unstaged };

    assert!(Key::is_staged(&&staged));
    assert!(!Key::is_unstaged(&&staged));
    assert!(Key::is_unstaged(&&unstaged));
}

#[test]
fn unreadable_file_is_binary() {
    let k = DiffKey { path: "img.png".to_owned(), area: DiffArea::Staged };
    assert!(matches!(diff_source(&k, None), DiffSource::Ready(Diff::Binary)));
}

#[test]
fn untracked_file_diff_is_its_lines() {
    let k = DiffKey { path: "new.txt".to_owned(), area: DiffArea::Untracked };
    match diff_source(&k, Some("one\r\ntwo\n")) {
        DiffSource::Ready(Diff::String(StringDiff { lines })) => assert_eq!(lines, vec!["one", "two"]),
        _ => panic!("expected the lines of the file"),
    }
}

#[test]
fn tracked_file_diff_comes_from_git() {
    let k = DiffKey { path: "src/a.rs".to_owned(), area: DiffArea::Staged };
    match diff_source(&k, Some("text")) {
        DiffSource::Commands(GitCommand::DiffStaged(p), GitCommand::DiffNumstatStaged(q)) => {
            assert_eq!(p, "src/a.rs");
            assert_eq!(q, "src/a.rs");
        }
        _ => panic!("expected the staged diff commands"),
    }
}
