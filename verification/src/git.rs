//! The git commands this program runs, and what each request of the user
//! makes it run.
use crate::common::{Branch, BranchArea, DiffArea, DiffKey, RepoAction};
use crate::log::{decimal, push_decimal};
use crate::repo::LOG_MAX_COUNT;
use crate::text::{decode_lossy, decoded, views};
use vstd::prelude::*;

verus! {

/// A git command, with what it works on.
pub enum GitCommand {
    Add(String),
    AddAll,
    Branch,
    BranchRemotes,
    Commit(String),
    CommitBody(String, String),
    Diff(String),
    DiffNameOnly,
    DiffNameOnlyStaged,
    DiffNumstat(String),
    DiffNumstatStaged(String),
    DiffStaged(String),
    FetchAll,
    Init,
    LogMaxCountSkip(usize),
    LsFilesOthersExcludeStandard,
    Pull,
    Push,
    Remote,
    ResetSoftHead1,
    RestoreStaged(String),
    RestoreStagedAll,
    RevParseShowToplevel,
    StashPopIndex,
    StashPushIncludeUntracked,
    Switch(String),
    SwitchCreate(String),
    SwitchCreateRemote(String, String),
}

/// The format of `git log` entries: the fields that `GitParser::parse_logs`
/// reads, separated by `0x1f`, each entry ended by `0x00`.
pub open spec fn log_format() -> Seq<char> {
    "--format=%an\x1f%aI\x1f%as\x1f%H\x1f%h\x1f%s\x1f%b%x00"@
}

/// The arguments that `git` is given for `command`.
pub open spec fn command_args(command: GitCommand) -> Seq<Seq<char>> {
    match command {
        GitCommand::Add(path) => seq!["add"@, path@],
        GitCommand::AddAll => seq!["add"@, "--all"@],
        GitCommand::Branch => seq!["branch"@],
        GitCommand::BranchRemotes => seq!["branch"@, "--remotes"@],
        GitCommand::Commit(subject) => seq!["commit"@, "-m"@, subject@],
        GitCommand::CommitBody(subject, body) => seq!["commit"@, "-m"@, subject@, "-m"@, body@],
        GitCommand::Diff(path) => seq!["diff"@, path@],
        GitCommand::DiffNameOnly => seq!["diff"@, "--name-only"@],
        GitCommand::DiffNameOnlyStaged => seq!["diff"@, "--name-only"@, "--staged"@],
        GitCommand::DiffNumstat(path) => seq!["diff"@, "--numstat"@, path@],
        GitCommand::DiffNumstatStaged(path) => seq!["diff"@, "--numstat"@, "--staged"@, path@],
        GitCommand::DiffStaged(path) => seq!["diff"@, "--staged"@, path@],
        GitCommand::FetchAll => seq!["fetch"@, "--all"@],
        GitCommand::Init => seq!["init"@, "-b"@, "main"@],
        GitCommand::LogMaxCountSkip(skip) => seq![
            "log"@,
            "--max-count"@,
            decimal(LOG_MAX_COUNT as nat),
            "--skip"@,
            decimal(skip as nat),
            log_format(),
        ],
        GitCommand::LsFilesOthersExcludeStandard => seq![
            "ls-files"@,
            "--others"@,
            "--exclude-standard"@,
        ],
        GitCommand::Pull => seq!["pull"@],
        GitCommand::Push => seq!["push"@],
        GitCommand::Remote => seq!["remote"@],
        GitCommand::ResetSoftHead1 => seq!["reset"@, "--soft"@, "HEAD~1"@],
        GitCommand::RestoreStaged(path) => seq!["restore"@, "--staged"@, path@],
        GitCommand::RestoreStagedAll => seq!["restore"@, "--staged"@, "."@],
        GitCommand::RevParseShowToplevel => seq!["rev-parse"@, "--show-toplevel"@],
        GitCommand::StashPopIndex => seq!["stash"@, "pop"@, "--index"@],
        GitCommand::StashPushIncludeUntracked => seq![
            "stash"@,
            "push"@,
            "--include-untracked"@,
        ],
        GitCommand::Switch(branch) => seq!["switch"@, branch@],
        GitCommand::SwitchCreate(branch) => seq!["switch"@, "--create"@, branch@],
        GitCommand::SwitchCreateRemote(branch, remote) => seq![
            "switch"@,
            "--create"@,
            branch@,
            remote@ + seq!['/'] + branch@,
        ],
    }
}

/// The string `s`.
fn owned(s: &str) -> (r: String)
    ensures
        r@ == s@,
{
    s.to_owned()
}

/// `n` written in decimal.
fn decimal_string(n: usize) -> (s: String)
    ensures
        s@ == decimal(n as nat),
{
    let mut s = String::new();
    push_decimal(&mut s, n as u64);
    assert(s@ =~= decimal(n as nat));
    s
}

impl GitCommand {
    /// The arguments that `git` is given for this command.
    pub fn args(&self) -> (args: Vec<String>)
        ensures
            views(args@) == command_args(*self),
    {
        let args: Vec<String> = match self {
            GitCommand::Add(path) => vec![owned("add"), path.clone()],
            GitCommand::AddAll => vec![owned("add"), owned("--all")],
            GitCommand::Branch => vec![owned("branch")],
            GitCommand::BranchRemotes => vec![owned("branch"), owned("--remotes")],
            GitCommand::Commit(subject) => vec![owned("commit"), owned("-m"), subject.clone()],
            GitCommand::CommitBody(subject, body) => vec![
                owned("commit"),
                owned("-m"),
                subject.clone(),
                owned("-m"),
                body.clone(),
            ],
            GitCommand::Diff(path) => vec![owned("diff"), path.clone()],
            GitCommand::DiffNameOnly => vec![owned("diff"), owned("--name-only")],
            GitCommand::DiffNameOnlyStaged => vec![
                owned("diff"),
                owned("--name-only"),
                owned("--staged"),
            ],
            GitCommand::DiffNumstat(path) => vec![owned("diff"), owned("--numstat"), path.clone()],
            GitCommand::DiffNumstatStaged(path) => vec![
                owned("diff"),
                owned("--numstat"),
                owned("--staged"),
                path.clone(),
            ],
            GitCommand::DiffStaged(path) => vec![owned("diff"), owned("--staged"), path.clone()],
            GitCommand::FetchAll => vec![owned("fetch"), owned("--all")],
            GitCommand::Init => vec![owned("init"), owned("-b"), owned("main")],
            GitCommand::LogMaxCountSkip(skip) => vec![
                owned("log"),
                owned("--max-count"),
                decimal_string(LOG_MAX_COUNT),
                owned("--skip"),
                decimal_string(*skip),
                owned("--format=%an\x1f%aI\x1f%as\x1f%H\x1f%h\x1f%s\x1f%b%x00"),
            ],
            GitCommand::LsFilesOthersExcludeStandard => vec![
                owned("ls-files"),
                owned("--others"),
                owned("--exclude-standard"),
            ],
            GitCommand::Pull => vec![owned("pull")],
            GitCommand::Push => vec![owned("push")],
            GitCommand::Remote => vec![owned("remote")],
            GitCommand::ResetSoftHead1 => vec![owned("reset"), owned("--soft"), owned("HEAD~1")],
            GitCommand::RestoreStaged(path) => vec![
                owned("restore"),
                owned("--staged"),
                path.clone(),
            ],
            GitCommand::RestoreStagedAll => vec![owned("restore"), owned("--staged"), owned(".")],
            GitCommand::RevParseShowToplevel => vec![owned("rev-parse"), owned("--show-toplevel")],
            GitCommand::StashPopIndex => vec![owned("stash"), owned("pop"), owned("--index")],
            GitCommand::StashPushIncludeUntracked => vec![
                owned("stash"),
                owned("push"),
                owned("--include-untracked"),
            ],
            GitCommand::Switch(branch) => vec![owned("switch"), branch.clone()],
            GitCommand::SwitchCreate(branch) => vec![
                owned("switch"),
                owned("--create"),
                branch.clone(),
            ],
            GitCommand::SwitchCreateRemote(branch, remote) => {
                let mut start_point = remote.clone();
                start_point.push('/');
                start_point.append(branch.as_str());
                assert(start_point@ =~= remote@ + seq!['/'] + branch@);
                vec![owned("switch"), owned("--create"), branch.clone(), start_point]
            },
        };
        assert(views(args@) =~= command_args(*self));
        args
    }
}

/// What the program does after the command of a request has run.
#[derive(Clone, Copy, Debug, PartialEq, Eq, Structural)]
pub enum Followup {
    /// Reads the state of the repository anew.
    Refresh,
    /// Loads the next entries of the log.
    LoadLogs,
}

/// The command that a request of the user runs, if any, and what follows it.
pub open spec fn action_plan(action: RepoAction) -> (Option<GitCommand>, Followup) {
    match action {
        RepoAction::Fetch => (Some(GitCommand::FetchAll), Followup::Refresh),
        RepoAction::Pull => (Some(GitCommand::Pull), Followup::Refresh),
        RepoAction::Push => (Some(GitCommand::Push), Followup::Refresh),
        RepoAction::Refresh => (None, Followup::Refresh),
        RepoAction::AddOrRestore(key) => (
            Some(
                match key.area {
                    DiffArea::Untracked | DiffArea::Unstaged => GitCommand::Add(key.path),
                    DiffArea::Staged => GitCommand::RestoreStaged(key.path),
                },
            ),
            Followup::Refresh,
        ),
        RepoAction::AddAll => (Some(GitCommand::AddAll), Followup::Refresh),
        RepoAction::RestoreAll => (Some(GitCommand::RestoreStagedAll), Followup::Refresh),
        RepoAction::Commit(subject, body) => (
            Some(
                match body {
                    Some(body) => GitCommand::CommitBody(subject, body),
                    None => GitCommand::Commit(subject),
                },
            ),
            Followup::Refresh,
        ),
        RepoAction::Switch(branch) => (
            Some(
                match branch.area {
                    BranchArea::Local => GitCommand::Switch(branch.name),
                    BranchArea::Remote(remote) => GitCommand::SwitchCreateRemote(
                        branch.name,
                        remote,
                    ),
                },
            ),
            Followup::Refresh,
        ),
        RepoAction::Create(name) => (Some(GitCommand::SwitchCreate(name)), Followup::Refresh),
        RepoAction::LoadLogs => (None, Followup::LoadLogs),
        RepoAction::StashPush => (Some(GitCommand::StashPushIncludeUntracked), Followup::Refresh),
        RepoAction::StashPop => (Some(GitCommand::StashPopIndex), Followup::Refresh),
        RepoAction::UndoCommit => (Some(GitCommand::ResetSoftHead1), Followup::Refresh),
    }
}

impl RepoAction {
    /// The command that the request runs, if any, and what follows it.
    pub fn plan(self) -> (p: (Option<GitCommand>, Followup))
        ensures
            p == action_plan(self),
    {
        match self {
            RepoAction::Fetch => (Some(GitCommand::FetchAll), Followup::Refresh),
            RepoAction::Pull => (Some(GitCommand::Pull), Followup::Refresh),
            RepoAction::Push => (Some(GitCommand::Push), Followup::Refresh),
            RepoAction::Refresh => (None, Followup::Refresh),
            RepoAction::AddOrRestore(key) => {
                let command = match key.area {
                    DiffArea::Untracked | DiffArea::Unstaged => GitCommand::Add(key.path),
                    DiffArea::Staged => GitCommand::RestoreStaged(key.path),
                };
                (Some(command), Followup::Refresh)
            },
            RepoAction::AddAll => (Some(GitCommand::AddAll), Followup::Refresh),
            RepoAction::RestoreAll => (Some(GitCommand::RestoreStagedAll), Followup::Refresh),
            RepoAction::Commit(subject, body) => {
                let command = match body {
                    Some(body) => GitCommand::CommitBody(subject, body),
                    None => GitCommand::Commit(subject),
                };
                (Some(command), Followup::Refresh)
            },
            RepoAction::Switch(branch) => {
                let command = match branch.area {
                    BranchArea::Local => GitCommand::Switch(branch.name),
                    BranchArea::Remote(remote) => GitCommand::SwitchCreateRemote(
                        branch.name,
                        remote,
                    ),
                };
                (Some(command), Followup::Refresh)
            },
            RepoAction::Create(name) => (Some(GitCommand::SwitchCreate(name)), Followup::Refresh),
            RepoAction::LoadLogs => (None, Followup::LoadLogs),
            RepoAction::StashPush => (
                Some(GitCommand::StashPushIncludeUntracked),
                Followup::Refresh,
            ),
            RepoAction::StashPop => (Some(GitCommand::StashPopIndex), Followup::Refresh),
            RepoAction::UndoCommit => (Some(GitCommand::ResetSoftHead1), Followup::Refresh),
        }
    }
}

/// The commands that give the hunks and the counts of a changed path; none
/// for a path that git does not track.
pub open spec fn diff_commands(key: DiffKey) -> Option<(GitCommand, GitCommand)> {
    match key.area {
        DiffArea::Untracked => None,
        DiffArea::Unstaged => Some(
            (GitCommand::Diff(key.path), GitCommand::DiffNumstat(key.path)),
        ),
        DiffArea::Staged => Some(
            (GitCommand::DiffStaged(key.path), GitCommand::DiffNumstatStaged(key.path)),
        ),
    }
}

impl DiffKey {
    /// The commands that give the hunks and the counts of this path; none for
    /// a path that git does not track.
    pub fn diff_commands(&self) -> (c: Option<(GitCommand, GitCommand)>)
        ensures
            c == diff_commands(*self),
    {
        match self.area {
            DiffArea::Untracked => None,
            DiffArea::Unstaged => Some(
                (GitCommand::Diff(self.path.clone()), GitCommand::DiffNumstat(self.path.clone())),
            ),
            DiffArea::Staged => Some(
                (
                    GitCommand::DiffStaged(self.path.clone()),
                    GitCommand::DiffNumstatStaged(self.path.clone()),
                ),
            ),
        }
    }
}

/// The arguments of the command that a request runs, if it runs one.
pub open spec fn planned_args(action: RepoAction) -> Option<Seq<Seq<char>>> {
    match action_plan(action).0 {
        Some(command) => Some(command_args(command)),
        None => None,
    }
}

/// What each command hands git. Reading the working tree: the untracked paths
/// come from `ls-files --others --exclude-standard`, the unstaged ones from
/// `diff --name-only` and the staged ones from the same with `--staged`; the
/// hunks and counts of a path come from `diff` and `diff --numstat`, with
/// `--staged` for the staging area. The log asks for 100 entries after
/// `skip`, in the format that the parser reads.
pub proof fn lemma_command_arguments(skip: usize)
    ensures
        command_args(GitCommand::AddAll) == seq!["add"@, "--all"@],
        command_args(GitCommand::Branch) == seq!["branch"@],
        command_args(GitCommand::BranchRemotes) == seq!["branch"@, "--remotes"@],
        command_args(GitCommand::DiffNameOnly) == seq!["diff"@, "--name-only"@],
        command_args(GitCommand::DiffNameOnlyStaged) == seq!["diff"@, "--name-only"@, "--staged"@],
        command_args(GitCommand::FetchAll) == seq!["fetch"@, "--all"@],
        command_args(GitCommand::Init) == seq!["init"@, "-b"@, "main"@],
        command_args(GitCommand::LogMaxCountSkip(skip)) == seq![
            "log"@,
            "--max-count"@,
            "100"@,
            "--skip"@,
            decimal(skip as nat),
            "--format=%an\x1f%aI\x1f%as\x1f%H\x1f%h\x1f%s\x1f%b%x00"@,
        ],
        command_args(GitCommand::LsFilesOthersExcludeStandard) == seq![
            "ls-files"@,
            "--others"@,
            "--exclude-standard"@,
        ],
        command_args(GitCommand::Pull) == seq!["pull"@],
        command_args(GitCommand::Push) == seq!["push"@],
        command_args(GitCommand::Remote) == seq!["remote"@],
        command_args(GitCommand::ResetSoftHead1) == seq!["reset"@, "--soft"@, "HEAD~1"@],
        command_args(GitCommand::RestoreStagedAll) == seq!["restore"@, "--staged"@, "."@],
        command_args(GitCommand::RevParseShowToplevel) == seq!["rev-parse"@, "--show-toplevel"@],
        command_args(GitCommand::StashPopIndex) == seq!["stash"@, "pop"@, "--index"@],
        command_args(GitCommand::StashPushIncludeUntracked) == seq![
            "stash"@,
            "push"@,
            "--include-untracked"@,
        ],
        forall|p: String| #[trigger] command_args(GitCommand::Add(p)) == seq!["add"@, p@],
        forall|s: String| #[trigger] command_args(GitCommand::Commit(s)) == seq!["commit"@, "-m"@, s@],
        forall|s: String, b: String| #[trigger]
            command_args(GitCommand::CommitBody(s, b)) == seq!["commit"@, "-m"@, s@, "-m"@, b@],
        forall|p: String| #[trigger] command_args(GitCommand::Diff(p)) == seq!["diff"@, p@],
        forall|p: String| #[trigger]
            command_args(GitCommand::DiffStaged(p)) == seq!["diff"@, "--staged"@, p@],
        forall|p: String| #[trigger]
            command_args(GitCommand::DiffNumstat(p)) == seq!["diff"@, "--numstat"@, p@],
        forall|p: String| #[trigger]
            command_args(GitCommand::DiffNumstatStaged(p)) == seq![
                "diff"@,
                "--numstat"@,
                "--staged"@,
                p@,
            ],
        forall|p: String| #[trigger]
            command_args(GitCommand::RestoreStaged(p)) == seq!["restore"@, "--staged"@, p@],
        forall|b: String| #[trigger] command_args(GitCommand::Switch(b)) == seq!["switch"@, b@],
        forall|b: String| #[trigger]
            command_args(GitCommand::SwitchCreate(b)) == seq!["switch"@, "--create"@, b@],
        forall|b: String, r: String| #[trigger]
            command_args(GitCommand::SwitchCreateRemote(b, r)) == seq![
                "switch"@,
                "--create"@,
                b@,
                r@ + seq!['/'] + b@,
            ],
{
    reveal_strlit("100");
    assert(decimal(100) == "100"@) by {
        reveal_with_fuel(decimal, 3);
        assert(decimal(1) == seq!['1']);
        assert(decimal(10) == seq!['1', '0']);
    }
}

/// Confirming a changed path stages it where it is not staged (`git add`)
/// and unstages it where it is (`git restore --staged`); the state is then
/// read anew.
pub proof fn lemma_stage_or_unstage(key: DiffKey)
    ensures
        planned_args(RepoAction::AddOrRestore(key)) == Some(
            if key.area == DiffArea::Staged {
                seq!["restore"@, "--staged"@, key.path@]
            } else {
                seq!["add"@, key.path@]
            },
        ),
        action_plan(RepoAction::AddOrRestore(key)).1 == Followup::Refresh,
{
}

/// The command each request runs: a commit passes its subject, and its body
/// where it has one, each after `-m`; switching to a local branch switches to
/// it, and to a remote one creates a local branch of its name from
/// `remote/name`; creating a branch creates it and switches to it. Loading
/// more log entries and refreshing run no command; every other request reads
/// the state anew after its command, and loading log entries loads the next
/// ones.
pub proof fn lemma_request_commands(
    subject: String,
    body: String,
    branch: Branch,
    name: String,
)
    ensures
        planned_args(RepoAction::Fetch) == Some(seq!["fetch"@, "--all"@]),
        planned_args(RepoAction::Pull) == Some(seq!["pull"@]),
        planned_args(RepoAction::Push) == Some(seq!["push"@]),
        planned_args(RepoAction::Refresh) == None::<Seq<Seq<char>>>,
        planned_args(RepoAction::AddAll) == Some(seq!["add"@, "--all"@]),
        planned_args(RepoAction::RestoreAll) == Some(seq!["restore"@, "--staged"@, "."@]),
        planned_args(RepoAction::Commit(subject, None)) == Some(
            seq!["commit"@, "-m"@, subject@],
        ),
        planned_args(RepoAction::Commit(subject, Some(body))) == Some(
            seq!["commit"@, "-m"@, subject@, "-m"@, body@],
        ),
        branch.area == BranchArea::Local ==> planned_args(RepoAction::Switch(branch)) == Some(
            seq!["switch"@, branch.name@],
        ),
        branch.area matches BranchArea::Remote(remote) ==> planned_args(RepoAction::Switch(branch))
            == Some(seq!["switch"@, "--create"@, branch.name@, remote@ + seq!['/'] + branch.name@]),
        planned_args(RepoAction::Create(name)) == Some(seq!["switch"@, "--create"@, name@]),
        planned_args(RepoAction::LoadLogs) == None::<Seq<Seq<char>>>,
        planned_args(RepoAction::StashPush) == Some(
            seq!["stash"@, "push"@, "--include-untracked"@],
        ),
        planned_args(RepoAction::StashPop) == Some(seq!["stash"@, "pop"@, "--index"@]),
        planned_args(RepoAction::UndoCommit) == Some(seq!["reset"@, "--soft"@, "HEAD~1"@]),
        forall|a: RepoAction| #[trigger] action_plan(a).1 == if a is LoadLogs {
            Followup::LoadLogs
        } else {
            Followup::Refresh
        },
{
}

/// The hunks and counts of a changed path: none for an untracked path; for
/// an unstaged one `git diff path` and `git diff --numstat path`; for a staged
/// one the same with `--staged`.
pub proof fn lemma_diff_command_arguments(key: DiffKey)
    ensures
        key.area == DiffArea::Untracked ==> diff_commands(key) is None,
        key.area == DiffArea::Unstaged ==> (diff_commands(key) matches Some((h, n)) && command_args(h)
            == seq!["diff"@, key.path@] && command_args(n) == seq!["diff"@, "--numstat"@, key.path@]),
        key.area == DiffArea::Staged ==> (diff_commands(key) matches Some((h, n)) && command_args(h)
            == seq!["diff"@, "--staged"@, key.path@] && command_args(n) == seq![
            "diff"@,
            "--numstat"@,
            "--staged"@,
            key.path@,
        ]),
{
}

/// Whether `b` is whitespace as `u8::is_ascii_whitespace` has it: space, tab,
/// line feed, form feed or carriage return.
pub open spec fn is_ascii_whitespace(b: u8) -> bool {
    b == 0x20 || b == 0x09 || b == 0x0a || b == 0x0c || b == 0x0d
}

/// `bytes` without its trailing ASCII whitespace.
pub open spec fn trim_ascii_end(bytes: Seq<u8>) -> Seq<u8>
    decreases bytes.len(),
{
    if bytes.len() > 0 && is_ascii_whitespace(bytes.last()) {
        trim_ascii_end(bytes.drop_last())
    } else {
        bytes
    }
}

/// The top-level directory that `git rev-parse --show-toplevel` prints: its
/// output without trailing ASCII whitespace, decoded lossily.
pub fn toplevel_from(stdout: &[u8]) -> (dir: String)
    ensures
        dir@ == decoded(trim_ascii_end(stdout@)),
{
    let mut end = stdout.len();
    assert(stdout@.subrange(0, end as int) =~= stdout@);
    while end > 0 && (stdout[end - 1] == 0x20 || stdout[end - 1] == 0x09 || stdout[end - 1] == 0x0a
        || stdout[end - 1] == 0x0c || stdout[end - 1] == 0x0d)
        invariant
            end <= stdout.len(),
            trim_ascii_end(stdout@) == trim_ascii_end(stdout@.subrange(0, end as int)),
        decreases end,
    {
        assert(stdout@.subrange(0, end as int).drop_last() =~= stdout@.subrange(0, end - 1));
        end = end - 1;
    }
    let mut kept: Vec<u8> = Vec::new();
    let mut i: usize = 0;
    while i < end
        invariant
            i <= end <= stdout.len(),
            kept@ == stdout@.subrange(0, i as int),
        decreases end - i,
    {
        kept.push(stdout[i]);
        i = i + 1;
        assert(kept@ =~= stdout@.subrange(0, i as int));
    }
    decode_lossy(kept.as_slice())
}

} // verus!
