use guit::config::{Config, RecentRepo};
use std::collections::hash_map::DefaultHasher;
use std::hash::{Hash, Hasher};
use std::path::PathBuf;
use std::time::{SystemTime, UNIX_EPOCH};

#[test]
fn recent_repo_new() {
    let path = "/test/repo".to_string();
    let repo = RecentRepo::new(path.clone());
    let now = SystemTime::now()
        .duration_since(UNIX_EPOCH)
        .unwrap()
        .as_secs();

    assert_eq!(repo.path, path);
    assert!(repo.opened <= now);
    assert!(repo.opened >= now.saturating_sub(1));
}

#[test]
fn recent_repo_equality_same_path() {
    let path = "/test/repo".to_string();
    let repo1 = RecentRepo::new(path.clone());
    let repo2 = RecentRepo::new(path);

    assert_eq!(repo1, repo2);
}

#[test]
fn recent_repo_inequality_different_paths() {
    let repo1 = RecentRepo::new("/test/repo1".to_string());
    let repo2 = RecentRepo::new("/test/repo2".to_string());

    assert_ne!(repo1, repo2);
}

#[test]
fn recent_repo_hash_equality_same_path() {
    let path = "/test/repo".to_string();
    let repo1 = RecentRepo::new(path.clone());
    let repo2 = RecentRepo::new(path);
    let mut hasher1 = DefaultHasher::new();
    let mut hasher2 = DefaultHasher::new();

    repo1.hash(&mut hasher1);
    repo2.hash(&mut hasher2);

    let hash1 = hasher1.finish();
    let hash2 = hasher2.finish();

    assert_eq!(hash1, hash2);
}

#[test]
fn recent_repo_hash_inequality_different_paths() {
    let repo1 = RecentRepo::new("/test/repo1".to_string());
    let repo2 = RecentRepo::new("/test/repo2".to_string());
    let mut hasher1 = DefaultHasher::new();
    let mut hasher2 = DefaultHasher::new();

    repo1.hash(&mut hasher1);
    repo2.hash(&mut hasher2);

    let hash1 = hasher1.finish();
    let hash2 = hasher2.finish();

    assert_ne!(hash1, hash2);
}

#[test]
fn recent_repo_equality_ignores_opened() {
    let path = "/test/repo".to_string();
    let mut repo1 = RecentRepo::new(path.clone());
    let mut repo2 = RecentRepo::new(path);

    repo1.opened = 1000;
    repo2.opened = 2000;

    assert_eq!(repo1, repo2);
}

#[test]
fn recent_repo_equality_by_path_components() {
    let repo1 = RecentRepo::opened_at("/test/repo/".to_string(), 1);
    let repo2 = RecentRepo::opened_at("/test//repo".to_string(), 2);

    assert_eq!(repo1, repo2);
}

#[test]
fn config_add_repo_keeps_each_path_once() {
    let mut config = Config::default();
    config.add_repo("/a".to_string());
    config.add_repo("/b".to_string());
    config.add_repo("/a".to_string());

    let mut paths: Vec<&str> = config.repos().iter().map(|r| r.path.as_str()).collect();
    paths.sort();
    assert_eq!(paths, vec!["/a", "/b"]);
}

#[test]
fn config_replace_repo_takes_the_place_of_equal_paths() {
    let mut config = Config::default();
    config.replace_repo(RecentRepo::opened_at("/a".to_string(), 1));
    config.replace_repo(RecentRepo::opened_at("/b".to_string(), 2));
    config.replace_repo(RecentRepo::opened_at("/a/".to_string(), 3));

    let repos = config.repos();
    assert_eq!(repos.len(), 2);
    assert_eq!(repos[0].path, "/b");
    assert_eq!(repos[1].path, "/a/");
    assert_eq!(repos[1].opened, 3);
}

#[test]
fn config_recent_repos_most_recent_first() {
    let mut config = Config::default();
    config.replace_repo(RecentRepo::opened_at("/old".to_string(), 10));
    config.replace_repo(RecentRepo::opened_at("/new".to_string(), 30));
    config.replace_repo(RecentRepo::opened_at("/mid".to_string(), 20));

    let recent: Vec<(&str, u64)> = config
        .recent_repos()
        .iter()
        .map(|r| (r.path.as_str(), r.opened))
        .collect();
    assert_eq!(recent, vec![("/new", 30), ("/mid", 20), ("/old", 10)]);
}

#[test]
fn config_recent_repos_ties_keep_order() {
    let mut config = Config::default();
    config.replace_repo(RecentRepo::opened_at("/first".to_string(), 5));
    config.replace_repo(RecentRepo::opened_at("/second".to_string(), 5));

    let recent: Vec<&str> = config.recent_repos().iter().map(|r| r.path.as_str()).collect();
    assert_eq!(recent, vec!["/first", "/second"]);
}

#[test]
fn config_loaded_keeps_first_of_equal_paths() {
    let config = Config::loaded(
        PathBuf::from("/tmp/config.json"),
        vec![
            RecentRepo::opened_at("/a".to_string(), 1),
            RecentRepo::opened_at("/a".to_string(), 2),
            RecentRepo::opened_at("/b".to_string(), 3),
        ],
    );

    let repos = config.repos();
    assert_eq!(repos.len(), 2);
    assert_eq!(repos[0].opened, 1);
    assert_eq!(repos[1].path, "/b");
    assert_eq!(config.path(), &PathBuf::from("/tmp/config.json"));
}

#[test]
fn config_add_repo_counts() {
    let mut config = Config::default();
    config.add_repo("/a".to_string());
    assert_eq!(config.repos().len(), 1);
    config.add_repo("/a".to_string());
    assert_eq!(config.repos().len(), 1);
    config.add_repo("/b".to_string());
    assert_eq!(config.repos().len(), 2);
}
