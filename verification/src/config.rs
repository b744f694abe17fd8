//! The repositories opened lately, each path once, most recent first.
use std::path::PathBuf;
use vstd::prelude::*;

verus! {

/// Whether two paths are equal as `std::path::Path` compares them: by their
/// components, so that `a/b` and `a//b/` are the same path.
pub uninterp spec fn paths_equal(a: Seq<char>, b: Seq<char>) -> bool;

/// Whether the `i`-th character of `p` keeps `p` spelled as its components
/// read back: it is neither a backslash nor `:`, and where it is a `/`, no `/` and
/// no lone `.` follows it, and it does not end `p` unless `p` is the root.
pub open spec fn normal_at(p: Seq<char>, i: int) -> bool {
    &&& p[i] != '\\' && p[i] != ':'
    &&& p[i] == '/' && i + 1 < p.len() ==> p[i + 1] != '/' && !(p[i + 1] == '.' && (i + 2
        == p.len() || p[i + 2] == '/'))
    &&& p[i] == '/' && i + 1 == p.len() ==> p.len() == 1
}

/// A path spelled as `Path::components` reads it back: `/` alone separates,
/// no separator is doubled or trails, and no `.` follows one. Two such
/// spellings are the same path only where they are the same string.
pub open spec fn normal_path(p: Seq<char>) -> bool {
    forall|i: int| 0 <= i < p.len() ==> #[trigger] normal_at(p, i)
}

/// Whether two paths are the same path: spelled alike, or, where one of them
/// is not spelled normally, equal as `Path` compares them.
pub open spec fn path_eq(a: Seq<char>, b: Seq<char>) -> bool {
    a == b || (!(normal_path(a) && normal_path(b)) && paths_equal(a, b))
}

/// Compares two paths with `Path`'s `==`, which compares their components.
/// `Path` is `Eq`, so the comparison is an equivalence: a path equals itself,
/// `a == b` is `b == a`, and paths equal to each other equal the same paths.
/// `Path::components` drops doubled and trailing separators and `.` after a
/// separator and nothing else, so two normally spelled paths are equal only
/// where they are the same string. Which other spellings a path equals is
/// left to `paths_equal`.
#[verifier::external_body]
fn same_path(a: &str, b: &str) -> (r: bool)
    ensures
        r == paths_equal(a@, b@),
        a@ == b@ ==> r,
        normal_path(a@) && normal_path(b@) && a@ != b@ ==> !r,
        r == paths_equal(b@, a@),
        r ==> forall|c: Seq<char>| #[trigger] path_eq(a@, c) == path_eq(b@, c),
{
    std::path::Path::new(a) == std::path::Path::new(b)
}

/// Seconds since the Unix epoch by the system clock, through
/// `SystemTime::now`; 0 where the clock is set before the epoch. Nothing is
/// promised of the value.
#[verifier::external_body]
pub(crate) fn unix_seconds_now() -> (secs: u64) {
    match std::time::SystemTime::now().duration_since(std::time::UNIX_EPOCH) {
        Ok(elapsed) => elapsed.as_secs(),
        Err(_) => 0,
    }
}

/// `PathBuf::new` gives an empty path.
pub assume_specification[ std::path::PathBuf::new ]() -> std::path::PathBuf;

/// A repository that was opened, and when, in seconds since the Unix epoch.
/// Two of them are equal when their paths are.
#[derive(Clone, Debug)]
pub struct RecentRepo {
    pub path: String,
    pub opened: u64,
}

impl PartialEq for RecentRepo {
    fn eq(&self, other: &Self) -> (r: bool) {
        same_path(self.path.as_str(), other.path.as_str())
    }
}

impl vstd::std_specs::cmp::PartialEqSpecImpl for RecentRepo {
    open spec fn obeys_eq_spec() -> bool {
        true
    }

    open spec fn eq_spec(&self, other: &Self) -> bool {
        path_eq(self.path@, other.path@)
    }
}

impl Eq for RecentRepo {

}

impl core::hash::Hash for RecentRepo {
    /// Hashes the path as `Path` does, so that equal repositories hash alike.
    #[verifier::external_body]
    fn hash<H: core::hash::Hasher>(&self, state: &mut H) {
        std::path::Path::new(self.path.as_str()).hash(state)
    }
}

impl RecentRepo {
    /// The repository at `path`, opened now.
    pub fn new(path: String) -> (repo: Self)
        ensures
            repo.path == path,
    {
        Self::opened_at(path, unix_seconds_now())
    }

    /// The repository at `path`, opened at `opened`.
    pub fn opened_at(path: String, opened: u64) -> (repo: Self)
        ensures
            repo.path == path,
            repo.opened == opened,
    {
        RecentRepo { path, opened }
    }
}

/// No two repositories of `repos` have equal paths.
pub open spec fn distinct_paths(repos: Seq<RecentRepo>) -> bool {
    forall|i: int, j: int|
        0 <= i < j < repos.len() ==> !path_eq(#[trigger] repos[i].path@, #[trigger] repos[j].path@)
}

/// The repositories of `repos` whose path is not equal to `path`, in order.
pub open spec fn without_path(repos: Seq<RecentRepo>, path: Seq<char>) -> Seq<RecentRepo>
    decreases repos.len(),
{
    if repos.len() == 0 {
        seq![]
    } else if path_eq(repos.last().path@, path) {
        without_path(repos.drop_last(), path)
    } else {
        without_path(repos.drop_last(), path).push(repos.last())
    }
}

/// Whether some repository of `repos` has a path equal to `path`.
pub open spec fn has_path(repos: Seq<RecentRepo>, path: Seq<char>) -> bool {
    exists|i: int| 0 <= i < repos.len() && path_eq(#[trigger] repos[i].path@, path)
}

/// Of the repositories of `repos`, in order, each that has no path equal to
/// that of one before it.
pub open spec fn first_of_each_path(repos: Seq<RecentRepo>) -> Seq<RecentRepo>
    decreases repos.len(),
{
    if repos.len() == 0 {
        seq![]
    } else if has_path(first_of_each_path(repos.drop_last()), repos.last().path@) {
        first_of_each_path(repos.drop_last())
    } else {
        first_of_each_path(repos.drop_last()).push(repos.last())
    }
}

/// The repositories opened lately, and the file they are kept in.
pub struct Config {
    path: PathBuf,
    repos: Vec<RecentRepo>,
}

impl View for Config {
    type V = Seq<RecentRepo>;

    closed spec fn view(&self) -> Seq<RecentRepo> {
        self.repos@
    }
}

impl Default for Config {
    fn default() -> (c: Self)
        ensures
            c@ == Seq::<RecentRepo>::empty(),
    {
        Config { path: PathBuf::new(), repos: Vec::new() }
    }
}

/// `without_path(repos, path)` keeps only repositories of `repos`, none with a
/// path equal to `path`, and keeps their paths distinct.
proof fn lemma_without_path(repos: Seq<RecentRepo>, path: Seq<char>)
    requires
        distinct_paths(repos),
    ensures
        distinct_paths(without_path(repos, path)),
        forall|k: int|
            0 <= k < without_path(repos, path).len() ==> !path_eq(
                (#[trigger] without_path(repos, path)[k]).path@,
                path,
            ),
        forall|k: int|
            0 <= k < without_path(repos, path).len() ==> exists|m: int|
                0 <= m < repos.len() && repos[m] == #[trigger] without_path(repos, path)[k],
    decreases repos.len(),
{
    if repos.len() > 0 {
        let rest = repos.drop_last();
        assert(distinct_paths(rest)) by {
            assert forall|i: int, j: int| 0 <= i < j < rest.len() implies !path_eq(
                #[trigger] rest[i].path@,
                #[trigger] rest[j].path@,
            ) by {
                assert(rest[i] == repos[i] && rest[j] == repos[j]);
            }
        }
        lemma_without_path(rest, path);
        let w0 = without_path(rest, path);
        let w = without_path(repos, path);
        assert forall|k: int| 0 <= k < w0.len() implies exists|m: int|
            0 <= m < repos.len() && repos[m] == #[trigger] w0[k] by {
            let m = choose|m: int| 0 <= m < rest.len() && rest[m] == w0[k];
            assert(repos[m] == rest[m]);
        }
        if !path_eq(repos.last().path@, path) {
            assert(w == w0.push(repos.last()));
            assert forall|i: int, j: int| 0 <= i < j < w.len() implies !path_eq(
                #[trigger] w[i].path@,
                #[trigger] w[j].path@,
            ) by {
                if j == w0.len() {
                    // `w[i]` stands in `rest`, before the last repository, whose path
                    // is distinct from all those before it.
                    let m = choose|m: int| 0 <= m < rest.len() && rest[m] == w0[i];
                    assert(repos[m] == w[i]);
                    assert(w[j] == repos[repos.len() - 1]);
                } else {
                    assert(w[i] == w0[i] && w[j] == w0[j]);
                }
            }
            assert forall|k: int| 0 <= k < w.len() implies exists|m: int|
                0 <= m < repos.len() && repos[m] == #[trigger] w[k] by {
                if k == w0.len() {
                    assert(repos[repos.len() - 1] == w[k]);
                } else {
                    assert(w[k] == w0[k]);
                }
            }
        }
    }
}

/// The repositories of `repos` whose path is not the same as `path`, in
/// order. Of repositories with distinct paths at most one has that path, so
/// one fewer remains where one had it.
fn without_path_of(repos: Vec<RecentRepo>, path: &String) -> (kept: Vec<RecentRepo>)
    requires
        distinct_paths(repos@),
    ensures
        kept@ == without_path(repos@, path@),
        kept.len() == if has_path(repos@, path@) {
            repos.len() - 1
        } else {
            repos.len() as int
        },
{
    let ghost before = repos@;
    let ghost mut found: Option<int> = None;
    let mut kept: Vec<RecentRepo> = Vec::new();
    for other in it: repos
        invariant
            it.seq() == before,
            distinct_paths(before),
            kept@ == without_path(before.take(it.index() as int), path@),
            match found {
                None => !has_path(before.take(it.index() as int), path@) && kept.len()
                    == it.index(),
                Some(k) => 0 <= k < it.index() && path_eq(before[k].path@, path@) && kept.len()
                    == it.index() - 1 && forall|c: Seq<char>|
                    #[trigger] path_eq(before[k].path@, c) == path_eq(path@, c),
            },
    {
        let ghost i = it.index();
        assert(before.take(i + 1).drop_last() =~= before.take(i as int));
        assert(before.take(i + 1).last() == other);
        let ghost o = other;
        if !same_path(other.path.as_str(), path.as_str()) {
            kept.push(other);
            proof {
                assert(has_path(before.take(i + 1), path@) == has_path(before.take(i as int), path@))
                    by {
                    if has_path(before.take(i + 1), path@) {
                        let k = choose|k: int|
                            0 <= k < i + 1 && path_eq(#[trigger] before.take(i + 1)[k].path@, path@);
                        assert(before.take(i as int)[k] == before.take(i + 1)[k]);
                    }
                    if has_path(before.take(i as int), path@) {
                        let k = choose|k: int|
                            0 <= k < i && path_eq(#[trigger] before.take(i as int)[k].path@, path@);
                        assert(before.take(i as int)[k] == before.take(i + 1)[k]);
                    }
                }
            }
        } else {
            proof {
                assert(path_eq(o.path@, path@));
                assert(path_eq(before.take(i + 1)[i as int].path@, path@));
                match found {
                    None => {
                        found = Some(i as int);
                    },
                    Some(k) => {
                        assert(path_eq(before[k].path@, o.path@) == path_eq(path@, o.path@));
                        assert(path_eq(before[k].path@, before[i as int].path@));
                        assert(false);
                    },
                }
            }
        }
    }
    assert(before.take(before.len() as int) =~= before);
    kept
}

impl Config {
    /// The file the configuration is kept in.
    pub closed spec fn file(&self) -> PathBuf {
        self.path
    }

    /// The file the configuration is kept in.
    pub fn path(&self) -> (p: &PathBuf)
        ensures
            *p == self.file(),
    {
        &self.path
    }

    #[verifier::type_invariant]
    closed spec fn distinct(self) -> bool {
        distinct_paths(self.repos@)
    }

    /// A configuration kept at `path`, with `repos` as they were read; of
    /// repositories with equal paths the first is kept.
    pub fn loaded(path: PathBuf, repos: Vec<RecentRepo>) -> (c: Self)
        ensures
            c.file() == path,
            c@ == first_of_each_path(repos@),
            distinct_paths(c@),
    {
        let ghost all = repos@;
        let mut kept: Vec<RecentRepo> = Vec::new();
        for repo in it: repos
            invariant
                it.seq() == all,
                kept@ == first_of_each_path(all.take(it.index() as int)),
                distinct_paths(kept@),
        {
            let ghost i = it.index();
            assert(all.take(i + 1).drop_last() =~= all.take(i as int));
            assert(all.take(i + 1).last() == repo);
            let mut j: usize = 0;
            let mut found = false;
            while j < kept.len()
                invariant
                    j <= kept.len(),
                    found == exists|k: int|
                        0 <= k < j && path_eq(#[trigger] kept@[k].path@, repo.path@),
                decreases kept.len() - j,
            {
                if same_path(kept[j].path.as_str(), repo.path.as_str()) {
                    found = true;
                }
                j = j + 1;
            }
            let ghost before = kept@;
            if !found {
                let ghost r = repo;
                kept.push(repo);
                proof {
                    assert forall|x: int, y: int| 0 <= x < y < kept@.len() implies !path_eq(
                        #[trigger] kept@[x].path@,
                        #[trigger] kept@[y].path@,
                    ) by {
                        assert(kept@[x] == before[x]);
                        if y < before.len() {
                            assert(kept@[y] == before[y]);
                        } else {
                            assert(kept@[y] == r);
                        }
                    }
                }
            }
        }
        assert(all.take(all.len() as int) =~= all);
        Config { path, repos: kept }
    }

    /// The repositories, in no particular order.
    pub fn repos(&self) -> (r: &[RecentRepo])
        ensures
            r@ == self@,
            distinct_paths(self@),
    {
        proof {
            use_type_invariant(self);
        }
        self.repos.as_slice()
    }

    /// Records that the repository at `path` was opened now: it takes the
    /// place of any with an equal path.
    pub fn add_repo(&mut self, path: String)
        ensures
            final(self).file() == old(self).file(),
            distinct_paths(final(self)@),
            final(self)@.len() == without_path(old(self)@, path@).len() + 1,
            final(self)@.drop_last() == without_path(old(self)@, path@),
            final(self)@.last().path == path,
            final(self)@.len() == if has_path(old(self)@, path@) {
                old(self)@.len() as int
            } else {
                old(self)@.len() + 1int
            },
    {
        let repo = RecentRepo::new(path);
        self.replace_repo(repo);
    }

    /// The repositories, the most recently opened first.
    pub fn recent_repos(&self) -> (r: Vec<&RecentRepo>)
        ensures
            r@.map_values(|x: &RecentRepo| *x).to_multiset() == self@.to_multiset(),
            forall|i: int, j: int| 0 <= i < j < r.len() ==> r@[i].opened >= r@[j].opened,
    {
        let mut sorted: Vec<&RecentRepo> = Vec::new();
        let mut i: usize = 0;
        assert(sorted@.map_values(|x: &RecentRepo| *x) =~= self@.take(0));
        while i < self.repos.len()
            invariant
                i <= self.repos.len(),
                sorted@.map_values(|x: &RecentRepo| *x).to_multiset() == self@.take(
                    i as int,
                ).to_multiset(),
                forall|a: int, b: int|
                    0 <= a < b < sorted.len() ==> sorted@[a].opened >= sorted@[b].opened,
            decreases self.repos.len() - i,
        {
            let repo = &self.repos[i];
            let mut p: usize = 0;
            while p < sorted.len() && sorted[p].opened >= repo.opened
                invariant
                    p <= sorted.len(),
                    forall|k: int| 0 <= k < p ==> sorted@[k].opened >= repo.opened,
                decreases sorted.len() - p,
            {
                p = p + 1;
            }
            let ghost before = sorted@;
            sorted.insert(p, repo);
            proof {
                assert(sorted@.map_values(|x: &RecentRepo| *x) =~= before.map_values(
                    |x: &RecentRepo| *x,
                ).insert(p as int, *repo));
                assert(self@.take(i + 1) =~= self@.take(i as int).push(*repo));
                let bm = before.map_values(|x: &RecentRepo| *x);
                vstd::seq_lib::to_multiset_insert(bm, p as int, *repo);
                vstd::seq_lib::to_multiset_build(self@.take(i as int), *repo);
                assert(self@.take(i as int).push(*repo).to_multiset() == self@.take(
                    i as int,
                ).to_multiset().insert(*repo));
                assert forall|a: int, b: int| 0 <= a < b < sorted.len() implies sorted@[a].opened
                    >= sorted@[b].opened by {
                    if b < p {
                    } else if a < p && b == p {
                    } else if a < p && b > p {
                        assert(sorted@[b] == before[b - 1]);
                    } else if a == p {
                        assert(sorted@[b] == before[b - 1]);
                        assert(before[p as int].opened < repo.opened);
                    } else {
                        assert(sorted@[b] == before[b - 1]);
                        assert(sorted@[a] == before[a - 1]);
                    }
                }
            }
            i = i + 1;
        }
        assert(self@.take(i as int) =~= self@);
        sorted
    }

    /// Forgets the repositories whose path is equal to that of `repo`.
    pub fn remove_repo(&mut self, repo: &RecentRepo)
        ensures
            final(self).file() == old(self).file(),
            distinct_paths(final(self)@),
            final(self)@ == without_path(old(self)@, repo.path@),
            final(self)@.len() == if has_path(old(self)@, repo.path@) {
                old(self)@.len() - 1
            } else {
                old(self)@.len() as int
            },
    {
        proof {
            use_type_invariant(&*self);
        }
        let ghost before = self.repos@;
        let mut repos: Vec<RecentRepo> = Vec::new();
        std::mem::swap(&mut repos, &mut self.repos);
        let kept = without_path_of(repos, &repo.path);
        proof {
            lemma_without_path(before, repo.path@);
        }
        self.repos = kept;
    }

    /// Adds `repo` in place of the repositories with an equal path.
    pub fn replace_repo(&mut self, repo: RecentRepo)
        ensures
            final(self).file() == old(self).file(),
            distinct_paths(final(self)@),
            final(self)@ == without_path(old(self)@, repo.path@).push(repo),
            final(self)@.len() == if has_path(old(self)@, repo.path@) {
                old(self)@.len() as int
            } else {
                old(self)@.len() + 1int
            },
    {
        proof {
            use_type_invariant(&*self);
        }
        let ghost before = self.repos@;
        let mut repos: Vec<RecentRepo> = Vec::new();
        std::mem::swap(&mut repos, &mut self.repos);
        let mut kept = without_path_of(repos, &repo.path);
        proof {
            lemma_without_path(before, repo.path@);
            let w = without_path(before, repo.path@);
            assert forall|x: int, y: int| 0 <= x < y < w.len() + 1 implies !path_eq(
                #[trigger] w.push(repo)[x].path@,
                #[trigger] w.push(repo)[y].path@,
            ) by {
                if y == w.len() {
                    assert(w.push(repo)[x] == w[x]);
                } else {
                    assert(w.push(repo)[x] == w[x]);
                    assert(w.push(repo)[y] == w[y]);
                }
            }
        }
        kept.push(repo);
        self.repos = kept;
    }
}

} // verus!
