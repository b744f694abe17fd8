//! The values that the parsers produce and the views and actions work with.
use crate::config::RecentRepo;
use crate::order::{lemma_text_lt_order, text_less, text_lt};
use crate::text::{chars_of, contains, find, lines, lines_of, lowercase, to_lowercase, views};
use std::path::PathBuf;
use vstd::prelude::*;

verus! {

/// `std::path::PathBuf`, carried through as it is.
#[verifier::external_type_specification]
#[verifier::external_body]
pub struct ExPathBuf(PathBuf);

/// Something the user asked for.
pub enum Action {
    File(FileAction),
    Repo(RepoAction),
}

/// Requests about which repository is open.
pub enum FileAction {
    Close,
    Init,
    Open,
    OpenRecent(PathBuf),
    RemoveRecent(RecentRepo),
}

/// Requests about the open repository.
pub enum RepoAction {
    Fetch,
    Pull,
    Push,
    Refresh,
    AddOrRestore(DiffKey),
    AddAll,
    RestoreAll,
    Commit(String, Option<String>),
    Switch(Branch),
    Create(String),
    LoadLogs,
    StashPush,
    StashPop,
    UndoCommit,
}

/// Where a changed path stands.
#[derive(Clone, Copy, Debug, PartialEq, Eq, Structural)]
pub enum DiffArea {
    Untracked,
    Unstaged,
    Staged,
}

/// The rank of an area in the order `Untracked < Unstaged < Staged`.
pub open spec fn area_rank(area: DiffArea) -> int {
    match area {
        DiffArea::Untracked => 0,
        DiffArea::Unstaged => 1,
        DiffArea::Staged => 2,
    }
}

/// A changed path and the area in which it changed.
#[derive(Clone, Debug)]
pub struct DiffKey {
    pub path: String,
    pub area: DiffArea,
}

impl PartialEq for DiffKey {
    fn eq(&self, other: &Self) -> (r: bool) {
        self.path == other.path && self.area == other.area
    }
}

impl vstd::std_specs::cmp::PartialEqSpecImpl for DiffKey {
    open spec fn obeys_eq_spec() -> bool {
        true
    }

    open spec fn eq_spec(&self, other: &Self) -> bool {
        self.path@ == other.path@ && self.area == other.area
    }
}

impl Eq for DiffKey {

}

/// The order of keys: by path, then by area.
pub open spec fn key_lt(a: DiffKey, b: DiffKey) -> bool {
    ||| text_lt(a.path@, b.path@)
    ||| (a.path@ == b.path@ && area_rank(a.area) < area_rank(b.area))
}

impl DiffKey {
    /// Whether the key is in the staging area.
    pub fn is_staged(key: &&DiffKey) -> (b: bool)
        ensures
            b == (key.area == DiffArea::Staged),
    {
        matches!(key.area, DiffArea::Staged)
    }

    /// Whether the key is outside the staging area.
    pub fn is_not_staged(key: &&DiffKey) -> (b: bool)
        ensures
            b == (key.area != DiffArea::Staged),
    {
        !Self::is_staged(key)
    }

    /// Whether `self` comes before `other` in the order of keys.
    pub fn less(&self, other: &DiffKey) -> (b: bool)
        ensures
            b == key_lt(*self, *other),
    {
        if text_less(self.path.as_str(), other.path.as_str()) {
            return true;
        }
        if self.path != other.path {
            return false;
        }
        let a: u8 = match self.area {
            DiffArea::Untracked => 0,
            DiffArea::Unstaged => 1,
            DiffArea::Staged => 2,
        };
        let b: u8 = match other.area {
            DiffArea::Untracked => 0,
            DiffArea::Unstaged => 1,
            DiffArea::Staged => 2,
        };
        a < b
    }
}

/// Lines added and removed, as `git diff --numstat` prints them.
#[derive(Debug, PartialEq, Eq)]
pub struct DiffNumstat {
    pub additions: String,
    pub deletions: String,
}

/// One hunk of a diff: its `@@` header and the lines under it.
#[derive(Clone, Debug, PartialEq, Eq)]
pub struct Hunk {
    pub header: String,
    pub lines: Vec<String>,
}

impl View for Hunk {
    type V = (Seq<char>, Seq<Seq<char>>);

    open spec fn view(&self) -> (Seq<char>, Seq<Seq<char>>) {
        (self.header@, views(self.lines@))
    }
}

/// The lines of a file that git does not track.
pub struct StringDiff {
    pub lines: Vec<String>,
}

/// The hunks of a tracked file, with its counts.
pub struct HunkDiff {
    pub hunks: Vec<Hunk>,
    pub numstat: DiffNumstat,
}

/// What changed in one path.
pub enum Diff {
    Binary,
    String(StringDiff),
    Hunk(HunkDiff),
}

/// Where a branch lives.
#[derive(Clone, Debug, PartialEq, Eq)]
pub enum BranchArea {
    Local,
    Remote(String),
}

/// A branch. Two branches are equal when their names are.
#[derive(Clone, Debug)]
pub struct Branch {
    pub name: String,
    pub area: BranchArea,
}

impl PartialEq for Branch {
    fn eq(&self, other: &Self) -> (r: bool) {
        self.name == other.name
    }
}

impl vstd::std_specs::cmp::PartialEqSpecImpl for Branch {
    open spec fn obeys_eq_spec() -> bool {
        true
    }

    open spec fn eq_spec(&self, other: &Self) -> bool {
        self.name@ == other.name@
    }
}

impl Eq for Branch {

}

impl Branch {
    /// How the branch is shown: its name, after `remote/` for a remote one.
    pub open spec fn label(self) -> Seq<char> {
        match self.area {
            BranchArea::Local => self.name@,
            BranchArea::Remote(remote) => remote@ + seq!['/'] + self.name@,
        }
    }

    /// The branch as it is shown.
    pub fn to_string(&self) -> (s: String)
        ensures
            s@ == self.label(),
    {
        match &self.area {
            BranchArea::Local => self.name.clone(),
            BranchArea::Remote(remote) => {
                let mut s = remote.clone();
                s.push('/');
                s.append(self.name.as_str());
                s
            },
        }
    }
}

/// The names in `s` are strictly ascending.
pub open spec fn names_ascending(s: Seq<Branch>) -> bool {
    forall|i: int, j: int| 0 <= i < j < s.len() ==> text_lt(#[trigger] s[i].name@, #[trigger] s[j].name@)
}

/// Whether some branch in `s` is named `name`.
pub open spec fn has_name(s: Seq<Branch>, name: Seq<char>) -> bool {
    exists|i: int| 0 <= i < s.len() && #[trigger] s[i].name@ == name
}

/// Whether `b` is one of the branches of `s`.
pub open spec fn has_branch(s: Seq<Branch>, b: Branch) -> bool {
    exists|i: int| 0 <= i < s.len() && #[trigger] s[i] == b
}

/// The branches of `s` with `b` inserted at `p` are those of `s` and `b`.
pub proof fn lemma_branches_inserted(s: Seq<Branch>, b: Branch, p: int)
    requires
        0 <= p <= s.len(),
    ensures
        forall|x: Branch| #[trigger] has_branch(s.insert(p, b), x) <==> (has_branch(s, x) || x == b),
        forall|n: Seq<char>|
            #[trigger] has_name(s.insert(p, b), n) <==> (has_name(s, n) || n == b.name@),
{
    let t = s.insert(p, b);
    assert forall|x: Branch| #[trigger] has_branch(t, x) <==> (has_branch(s, x) || x == b) by {
        if has_branch(t, x) {
            let k = choose|k: int| 0 <= k < t.len() && #[trigger] t[k] == x;
            if k < p {
                assert(s[k] == x);
            } else if k > p {
                assert(s[k - 1] == x);
            }
        }
        if has_branch(s, x) {
            let k = choose|k: int| 0 <= k < s.len() && #[trigger] s[k] == x;
            if k < p {
                assert(t[k] == x);
            } else {
                assert(t[k + 1] == x);
            }
        }
        if x == b {
            assert(t[p] == x);
        }
    }
    assert forall|n: Seq<char>| #[trigger] has_name(t, n) <==> (has_name(s, n) || n == b.name@) by {
        if has_name(t, n) {
            let k = choose|k: int| 0 <= k < t.len() && #[trigger] t[k].name@ == n;
            if k < p {
                assert(s[k].name@ == n);
            } else if k > p {
                assert(s[k - 1].name@ == n);
            }
        }
        if has_name(s, n) {
            let k = choose|k: int| 0 <= k < s.len() && #[trigger] s[k].name@ == n;
            if k < p {
                assert(t[k].name@ == n);
            } else {
                assert(t[k + 1].name@ == n);
            }
        }
        if n == b.name@ {
            assert(t[p].name@ == n);
        }
    }
}

/// A set of branches, ordered and told apart by name.
#[derive(Debug, PartialEq, Eq)]
pub struct BranchSet {
    items: Vec<Branch>,
}

impl View for BranchSet {
    type V = Seq<Branch>;

    closed spec fn view(&self) -> Seq<Branch> {
        self.items@
    }
}

impl BranchSet {
    #[verifier::type_invariant]
    closed spec fn ascending(self) -> bool {
        names_ascending(self.items@)
    }

    /// The empty set.
    pub fn new() -> (s: Self)
        ensures
            s@ == Seq::<Branch>::empty(),
    {
        BranchSet { items: Vec::new() }
    }

    /// The branches, ordered by name.
    pub fn as_slice(&self) -> (s: &[Branch])
        ensures
            s@ == self@,
            names_ascending(self@),
    {
        proof {
            use_type_invariant(self);
        }
        self.items.as_slice()
    }

    /// The number of branches.
    pub fn len(&self) -> (n: usize)
        ensures
            n == self@.len(),
    {
        self.items.len()
    }

    /// Whether the set holds no branch.
    pub fn is_empty(&self) -> (b: bool)
        ensures
            b == (self@.len() == 0),
    {
        self.items.len() == 0
    }

    /// Adds `branch` unless a branch of that name is already there, in which
    /// case the set is left as it was. Returns whether it was added.
    pub fn insert(&mut self, branch: Branch) -> (added: bool)
        ensures
            added == !has_name(old(self)@, branch.name@),
            added ==> exists|p: int|
                0 <= p <= old(self)@.len() && final(self)@ == old(self)@.insert(p, branch),
            !added ==> final(self)@ == old(self)@,
            names_ascending(final(self)@),
            forall|n: Seq<char>|
                #[trigger] has_name(final(self)@, n) <==> (has_name(old(self)@, n) || n
                    == branch.name@),
    {
        proof {
            use_type_invariant(&*self);
        }
        let ghost before = self.items@;
        let mut i: usize = 0;
        while i < self.items.len() && text_less(self.items[i].name.as_str(), branch.name.as_str())
            invariant
                i <= self.items.len(),
                self.items@ == before,
                names_ascending(before),
                forall|k: int| 0 <= k < i ==> text_lt(#[trigger] before[k].name@, branch.name@),
            decreases self.items.len() - i,
        {
            i = i + 1;
        }
        if i < self.items.len() && self.items[i].name == branch.name {
            assert(before[i as int].name@ == branch.name@);
            assert(has_name(before, branch.name@));
            return false;
        }
        proof {
            assert forall|k: int| 0 <= k < before.len() implies #[trigger] before[k].name@
                != branch.name@ by {
                lemma_text_lt_order(before[k].name@, branch.name@, before[i as int].name@);
                if k > i {
                    lemma_text_lt_order(branch.name@, before[i as int].name@, before[k].name@);
                    lemma_text_lt_order(before[i as int].name@, before[k].name@, branch.name@);
                }
            }
            assert forall|k: int| i < k < before.len() implies text_lt(
                branch.name@,
                #[trigger] before[k].name@,
            ) by {
                lemma_text_lt_order(branch.name@, before[i as int].name@, before[k].name@);
                lemma_text_lt_order(before[i as int].name@, branch.name@, before[k].name@);
            }
            if i < before.len() {
                lemma_text_lt_order(before[i as int].name@, branch.name@, branch.name@);
            }
        }
        let ghost b = branch;
        let mut items: Vec<Branch> = Vec::new();
        std::mem::swap(&mut items, &mut self.items);
        items.insert(i, branch);
        assert(items@ == before.insert(i as int, b));
        proof {
            assert forall|x: int, y: int| 0 <= x < y < items@.len() implies text_lt(
                #[trigger] items@[x].name@,
                #[trigger] items@[y].name@,
            ) by {
                if y < i {
                } else if x < i && y == i {
                } else if x < i && y > i {
                    assert(items@[y] == before[y - 1]);
                    lemma_text_lt_order(before[x].name@, b.name@, before[y - 1].name@);
                } else if x == i {
                    assert(items@[y] == before[y - 1]);
                } else {
                    assert(items@[y] == before[y - 1]);
                    assert(items@[x] == before[x - 1]);
                }
            }
        }
        self.items = items;
        assert(final(self)@ == old(self)@.insert(i as int, branch));
        proof {
            lemma_branches_inserted(before, b, i as int);
        }
        true
    }
}

/// The current branch and the others.
pub struct Branches {
    pub current: String,
    pub other: BranchSet,
}

impl Default for Branches {
    fn default() -> (b: Self)
        ensures
            b.current@ == Seq::<char>::empty(),
            b.other@ == Seq::<Branch>::empty(),
    {
        Branches { current: String::new(), other: BranchSet::new() }
    }
}

/// The branches of `s` whose name, in lowercase, holds `filter` in
/// lowercase, in order.
pub open spec fn matching(s: Seq<Branch>, filter: Seq<char>) -> Seq<Branch>
    decreases s.len(),
{
    if s.len() == 0 {
        seq![]
    } else if contains(lowercase(s.last().name@), lowercase(filter)) {
        matching(s.drop_last(), filter).push(s.last())
    } else {
        matching(s.drop_last(), filter)
    }
}

impl Branches {
    /// The other branches whose name holds `filter`, ignoring case, ordered by
    /// name.
    pub fn matching(&self, filter: &str) -> (r: Vec<&Branch>)
        ensures
            r@.map_values(|b: &Branch| *b) == matching(self.other@, filter@),
    {
        let needle = chars_of(to_lowercase(filter).as_str());
        let all = self.other.as_slice();
        let mut r: Vec<&Branch> = Vec::new();
        let mut i: usize = 0;
        while i < all.len()
            invariant
                i <= all.len(),
                all@ == self.other@,
                needle@ == lowercase(filter@),
                r@.map_values(|b: &Branch| *b) == matching(all@.take(i as int), filter@),
            decreases all.len() - i,
        {
            assert(all@.take(i + 1).drop_last() =~= all@.take(i as int));
            let name = chars_of(to_lowercase(all[i].name.as_str()).as_str());
            let found = find(&name, &needle);
            let ghost before = r@.map_values(|b: &Branch| *b);
            if found.is_some() {
                r.push(&all[i]);
                assert(r@.map_values(|b: &Branch| *b) =~= before.push(all@[i as int]));
            }
            i = i + 1;
        }
        assert(all@.take(i as int) =~= all@);
        r
    }
}

impl Diff {
    /// The diff of a file that git does not track: its lines.
    pub fn untracked(content: &str) -> (d: Diff)
        ensures
            d matches Diff::String(s) && views(s.lines@) == lines(content@),
    {
        Diff::String(StringDiff { lines: lines_of(content) })
    }
}

/// What a line of a hunk does.
#[derive(Clone, Copy, Debug, PartialEq, Eq, Structural)]
pub enum LineType {
    Addition,
    Deletion,
    Context,
}

/// What a line of a hunk does, by its first character: `+` adds it, `-`
/// removes it, and any other line is context.
pub open spec fn line_type_of(line: Seq<char>) -> LineType {
    if line.len() > 0 && line[0] == '+' {
        LineType::Addition
    } else if line.len() > 0 && line[0] == '-' {
        LineType::Deletion
    } else {
        LineType::Context
    }
}

impl LineType {
    /// What the line `line` of a hunk does.
    pub fn of(line: &str) -> (t: LineType)
        ensures
            t == line_type_of(line@),
    {
        let chars = chars_of(line);
        if chars.len() > 0 && chars[0] == '+' {
            LineType::Addition
        } else if chars.len() > 0 && chars[0] == '-' {
            LineType::Deletion
        } else {
            LineType::Context
        }
    }
}

/// No two branches of an ascending sequence share a name.
pub proof fn lemma_ascending_names_distinct(s: Seq<Branch>)
    requires
        names_ascending(s),
    ensures
        forall|i: int, j: int|
            0 <= i < s.len() && 0 <= j < s.len() && i != j ==> #[trigger] s[i].name@ != #[trigger] s[j].name@,
{
    assert forall|i: int, j: int|
        0 <= i < s.len() && 0 <= j < s.len() && i != j implies #[trigger] s[i].name@
        != #[trigger] s[j].name@ by {
        lemma_text_lt_order(s[i].name@, s[j].name@, s[i].name@);
        if i < j {
            assert(text_lt(s[i].name@, s[j].name@));
        } else {
            assert(text_lt(s[j].name@, s[i].name@));
        }
    }
}

} // verus!
