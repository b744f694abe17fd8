use guit::common::{Branch, BranchArea, BranchSet, DiffArea, DiffKey, DiffNumstat, Hunk};
use guit::parser::{GitParser, Log};

fn branch_set<const N: usize>(branches: [Branch; N]) -> BranchSet {
    let mut set = BranchSet::new();
    for branch in branches {
        set.insert(branch);
    }
    set
}

fn create_parser() -> GitParser {
    GitParser::default()
}


#[test]
fn parse_diff_keys_empty_bytes() {
    let parser = create_parser();
    let bytes = b"";

    for area in [DiffArea::Untracked, DiffArea::Unstaged, DiffArea::Staged] {
        let result = parser.parse_diff_keys(bytes, area);

        assert!(result.is_empty());
    }
}

#[test]
fn parse_diff_keys_single_path() {
    let parser = create_parser();
    let bytes = b"src/main.rs\n";

    for area in [DiffArea::Untracked, DiffArea::Unstaged, DiffArea::Staged] {
        let result = parser.parse_diff_keys(bytes, area);

        let expected = vec![DiffKey {
            path: "src/main.rs".to_string(),
            area,
        }];
        assert_eq!(result, expected);
    }
}

#[test]
fn parse_diff_keys_multiple_paths() {
    let parser = create_parser();
    let bytes = b"src/main.rs\nsrc/lib.rs\nCargo.toml\n";
    for area in [DiffArea::Untracked, DiffArea::Unstaged, DiffArea::Staged] {
        let result = parser.parse_diff_keys(bytes, area);

        let expected = vec![
            DiffKey {
                path: "src/main.rs".to_string(),
                area,
            },
            DiffKey {
                path: "src/lib.rs".to_string(),
                area,
            },
            DiffKey {
                path: "Cargo.toml".to_string(),
                area,
            },
        ];
        assert_eq!(result, expected);
    }
}

#[test]
fn parse_diff_keys_path_with_spaces() {
    let parser = create_parser();
    let bytes = b"my file.txt\n";
    for area in [DiffArea::Untracked, DiffArea::Unstaged, DiffArea::Staged] {
        let result = parser.parse_diff_keys(bytes, area);

        let expected = vec![DiffKey {
            path: "my file.txt".to_string(),
            area,
        }];
        assert_eq!(result, expected);
    }
}

#[test]
fn parse_diff_keys_ignores_empty_lines() {
    let parser = create_parser();
    let bytes = b"src/main.rs\n\n\nsrc/lib.rs\n";
    for area in [DiffArea::Untracked, DiffArea::Unstaged, DiffArea::Staged] {
        let result = parser.parse_diff_keys(bytes, area);

        let expected = vec![
            DiffKey {
                path: "src/main.rs".to_string(),
                area,
            },
            DiffKey {
                path: "src/lib.rs".to_string(),
                area,
            },
        ];
        assert_eq!(result, expected);
    }
}

#[test]
fn parse_diff_keys_unicode_paths() {
    let parser = create_parser();
    let bytes = "src/日本語.rs\nsrc/é.txt\n".as_bytes();
    for area in [DiffArea::Untracked, DiffArea::Unstaged, DiffArea::Staged] {
        let result = parser.parse_diff_keys(bytes, area);

        let expected = vec![
            DiffKey {
                path: "src/日本語.rs".to_string(),
                area,
            },
            DiffKey {
                path: "src/é.txt".to_string(),
                area,
            },
        ];
        assert_eq!(result, expected);
    }
}

#[test]
fn parse_hunks_strips_header_unix() {
    let parser = create_parser();
    let bytes = b"diff --git a/file.txt b/file.txt\n\
                   index 12345678..abcdef01 100644\n\
                   --- a/file.txt\n\
                   +++ b/file.txt\n\
                   @@ -1 +1 @@\n\
                   -old\n\
                   +new\n";

    let result = parser.parse_hunks(bytes);

    let expected = vec![Hunk {
        header: "@@ -1 +1 @@".to_owned(),
        lines: vec!["-old".to_owned(), "+new".to_owned()],
    }];
    assert_eq!(result, expected);
}

#[test]
fn parse_hunks_strips_header_windows() {
    let parser = create_parser();
    let bytes = b"diff --git a/file.txt b/file.txt\r\n\
                   index 12345678..abcdef01 100644\r\n\
                   --- a/file.txt\r\n\
                   +++ b/file.txt\r\n\
                   @@ -1 +1 @@\r\n\
                   -old\r\n\
                   +new\r\n";

    let result = parser.parse_hunks(bytes);

    let expected = vec![Hunk {
        header: "@@ -1 +1 @@".to_owned(),
        lines: vec!["-old".to_owned(), "+new".to_owned()],
    }];
    assert_eq!(result, expected);
}

#[test]
fn parse_hunks_fewer_than_four_lines() {
    let parser = create_parser();
    let bytes = b"only one line\n";

    let result = parser.parse_hunks(bytes);

    assert_eq!(result, Vec::<Hunk>::new());
}

#[test]
fn parse_hunks_exactly_four_lines() {
    let parser = create_parser();
    let bytes = b"line1\nline2\nline3\nline4\n";

    let result = parser.parse_hunks(bytes);

    assert_eq!(result, Vec::<Hunk>::new());
}

#[test]
fn parse_hunks_empty() {
    let parser = create_parser();
    let bytes = b"";

    let result = parser.parse_hunks(bytes);

    assert_eq!(result, Vec::<Hunk>::new());
}

#[test]
fn parse_local_branches_empty() {
    let parser = create_parser();
    let bytes = b"";

    let (current, other) = parser.parse_local_branches(bytes);

    assert!(current.is_empty());
    assert!(other.is_empty());
}

#[test]
fn parse_local_branches_single_current() {
    let parser = create_parser();
    let bytes = b"* main\n";

    let (current, other) = parser.parse_local_branches(bytes);

    assert_eq!(current, "main");
    assert!(other.is_empty());
}

#[test]
fn parse_local_branches_single_other() {
    let parser = create_parser();
    let bytes = b"  main\n";

    let (current, other) = parser.parse_local_branches(bytes);

    let expected = branch_set([Branch {
        name: "main".to_owned(),
        area: BranchArea::Local,
    }]);
    assert!(current.is_empty());
    assert_eq!(other, expected);
}

#[test]
fn parse_local_branches_current_and_others() {
    let parser = create_parser();
    let bytes = b"* main\n  develop\n  feature/foo\n";

    let (current, other) = parser.parse_local_branches(bytes);

    let expected = branch_set([
        Branch {
            name: "feature/foo".to_owned(),
            area: BranchArea::Local,
        },
        Branch {
            name: "develop".to_owned(),
            area: BranchArea::Local,
        },
    ]);
    assert_eq!(current, "main");
    assert_eq!(other, expected);
}

#[test]
fn parse_local_branches_ignores_extra_spaces() {
    let parser = create_parser();
    let bytes = b"   main\n";

    let (current, other) = parser.parse_local_branches(bytes);

    let expected = branch_set([Branch {
        name: " main".to_owned(),
        area: BranchArea::Local,
    }]);
    assert!(current.is_empty());
    assert_eq!(other, expected);
}

#[test]
fn parse_logs_empty() {
    let parser = create_parser();
    let bytes = b"";

    let result = parser.parse_logs(bytes);

    assert!(result.is_empty());
}

#[test]
fn parse_logs_single() {
    let parser = create_parser();
    let bytes = b"Jtl98\x1f2024-01-15T10:30:00+00:00\x1f2024-01-15\x1fabc123def456789\x1fabc123\x1ffix bug\x00";

    let result = parser.parse_logs(bytes);

    let expected = vec![Log {
        author: "Jtl98".to_owned(),
        long_date: "2024-01-15T10:30:00+00:00".to_owned(),
        short_date: "2024-01-15".to_owned(),
        long_hash: "abc123def456789".to_owned(),
        short_hash: "abc123".to_owned(),
        subject: "fix bug".to_owned(),
        body: None,
    }];
    assert_eq!(result, expected);
}

#[test]
fn parse_logs_single_with_body() {
    let parser = create_parser();
    let bytes = b"Jtl98\x1f2024-01-15T10:30:00+00:00\x1f2024-01-15\x1fabc123def456789\x1fabc123\x1ffix bug\x1fthis is the body\x00";

    let result = parser.parse_logs(bytes);

    let expected = vec![Log {
        author: "Jtl98".to_owned(),
        long_date: "2024-01-15T10:30:00+00:00".to_owned(),
        short_date: "2024-01-15".to_owned(),
        long_hash: "abc123def456789".to_owned(),
        short_hash: "abc123".to_owned(),
        subject: "fix bug".to_owned(),
        body: Some("this is the body".to_owned()),
    }];
    assert_eq!(result, expected);
}

#[test]
fn parse_logs_multiple() {
    let parser = create_parser();
    let bytes = b"Jtl98\x1f2024-01-15T10:30:00+00:00\x1f2024-01-15\x1fabc123def456789\x1fabc123\x1ffix bug\x00Jtl98\x1f2024-01-14T09:00:00+00:00\x1f2024-01-14\x1fdef456789abc123\x1fdef456\x1fadd feature\x00";

    let result = parser.parse_logs(bytes);

    let expected = vec![
        Log {
            author: "Jtl98".to_owned(),
            long_date: "2024-01-15T10:30:00+00:00".to_owned(),
            short_date: "2024-01-15".to_owned(),
            long_hash: "abc123def456789".to_owned(),
            short_hash: "abc123".to_owned(),
            subject: "fix bug".to_owned(),
            body: None,
        },
        Log {
            author: "Jtl98".to_owned(),
            long_date: "2024-01-14T09:00:00+00:00".to_owned(),
            short_date: "2024-01-14".to_owned(),
            long_hash: "def456789abc123".to_owned(),
            short_hash: "def456".to_owned(),
            subject: "add feature".to_owned(),
            body: None,
        },
    ];
    assert_eq!(result, expected);
}

#[test]
fn parse_logs_ignores_empty_entries() {
    let parser = create_parser();
    let bytes = b"\x00\x00";

    let result = parser.parse_logs(bytes);

    assert!(result.is_empty());
}

#[test]
fn parse_numstat_basic() {
    let parser = create_parser();
    let bytes = b"32\t0\tsrc/parser.rs";

    let result = parser.parse_numstat(bytes).unwrap();

    let expected = DiffNumstat {
        additions: "32".to_owned(),
        deletions: "0".to_owned(),
    };
    assert_eq!(result, expected);
}

#[test]
#[should_panic]
fn parse_numstat_empty() {
    let parser = create_parser();
    let bytes = b"";

    parser.parse_numstat(bytes).unwrap();
}

#[test]
#[should_panic]
fn parse_numstat_single_value() {
    let parser = create_parser();
    let bytes = b"10";

    parser.parse_numstat(bytes).unwrap();
}

#[test]
fn diff_keys_in_keeps_every_non_empty_line() {
    let parser = create_parser();
    let keys = parser.diff_keys_in("a.rs\r\n\nb/c.rs\n", DiffArea::Staged);

    let expected = vec![
        DiffKey { path: "a.rs".to_owned(), area: DiffArea::Staged },
        DiffKey { path: "b/c.rs".to_owned(), area: DiffArea::Staged },
    ];
    assert_eq!(keys, expected);
}

#[test]
fn hunks_in_drops_lines_before_the_first_header() {
    let parser = create_parser();
    let hunks = parser.hunks_in(
        "diff --git a/x b/x\nindex 1..2\n--- a/x\n+++ b/x\nstray\n@@ -1 +1 @@\n-old\n+new\n@@ -9 +9 @@\n ctx\n",
    );

    let expected = vec![
        Hunk {
            header: "@@ -1 +1 @@".to_owned(),
            lines: vec!["-old".to_owned(), "+new".to_owned()],
        },
        Hunk { header: "@@ -9 +9 @@".to_owned(), lines: vec![" ctx".to_owned()] },
    ];
    assert_eq!(hunks, expected);
}

#[test]
fn hunks_in_without_header_is_empty() {
    let parser = create_parser();
    assert!(parser.hunks_in("h1\nh2\nh3\nh4\n+added\n-removed\n").is_empty());
    assert!(parser.hunks_in("@@ -1 +1 @@\n-old\n").is_empty());
}

#[test]
fn local_branches_in_splits_current_from_others() {
    let parser = create_parser();
    let lines = vec!["  main".to_owned(), "* feature".to_owned(), "  zeta".to_owned()];
    let (current, other) = parser.local_branches_in(&lines);

    assert_eq!(current, "feature");
    let names: Vec<&str> = other.as_slice().iter().map(|b| b.name.as_str()).collect();
    assert_eq!(names, vec!["main", "zeta"]);
}

#[test]
fn try_parse_local_branches_refuses_a_short_line() {
    let parser = create_parser();
    assert!(parser.try_parse_local_branches(b"* main\nx\n").is_none());
    assert!(parser.try_parse_local_branches(b"* main\n  dev\n").is_some());
}

#[test]
fn log_from_fields_needs_six_fields() {
    let five: Vec<String> = ["a", "b", "c", "d", "e"].iter().map(|s| s.to_string()).collect();
    assert_eq!(GitParser::log_from_fields(five), None);

    let seven: Vec<String> =
        ["a", "b", "c", "d", "e", "f", "g"].iter().map(|s| s.to_string()).collect();
    let log = GitParser::log_from_fields(seven).unwrap();
    assert_eq!(log.author, "a");
    assert_eq!(log.subject, "f");
    assert_eq!(log.body, Some("g".to_owned()));
}

#[test]
fn numstat_in_takes_the_first_two_words() {
    let parser = create_parser();
    let numstat = parser.numstat_in("12\t3\tsrc/lib.rs\n").unwrap();
    assert_eq!(numstat, DiffNumstat { additions: "12".to_owned(), deletions: "3".to_owned() });
    assert!(parser.numstat_in("7").is_err());
}

#[test]
fn parse_logs_decodes_invalid_bytes_lossily() {
    let parser = create_parser();
    let bytes = b"a\x1fb\x1fc\x1fd\x1fe\x1fs\xff\x00";
    let logs = parser.parse_logs(bytes);
    assert_eq!(logs.len(), 1);
    assert_eq!(logs[0].subject, "s\u{fffd}");
}
