//! Reading what git prints: changed paths, diff hunks, branches, logs and
//! line counts.
use crate::common::{
    has_name, names_ascending, Branch, BranchArea, BranchSet, DiffArea, DiffKey, DiffNumstat, Hunk,
};
use crate::text::{
    chars_of, decode_lossy, lines, lines_of, non_empty, non_empty_lines, split_by_newline,
    starts_with, string_from, decoded, views, words, words_take,
};
use vstd::prelude::*;

verus! {

/// What one log entry holds, as text.
pub struct LogView {
    pub author: Seq<char>,
    pub long_date: Seq<char>,
    pub short_date: Seq<char>,
    pub long_hash: Seq<char>,
    pub short_hash: Seq<char>,
    pub subject: Seq<char>,
    pub body: Option<Seq<char>>,
}

/// One commit of the log.
#[derive(Clone, Debug, PartialEq, Eq)]
pub struct Log {
    pub author: String,
    pub long_date: String,
    pub short_date: String,
    pub long_hash: String,
    pub short_hash: String,
    pub subject: String,
    pub body: Option<String>,
}

/// The text of an optional string.
pub open spec fn option_view(o: Option<String>) -> Option<Seq<char>> {
    match o {
        Some(s) => Some(s@),
        None => None,
    }
}

impl View for Log {
    type V = LogView;

    open spec fn view(&self) -> LogView {
        LogView {
            author: self.author@,
            long_date: self.long_date@,
            short_date: self.short_date@,
            long_hash: self.long_hash@,
            short_hash: self.short_hash@,
            subject: self.subject@,
            body: option_view(self.body),
        }
    }
}

/// Reading `b` from the left: the pieces ended so far by `sep`, and the bytes
/// of the piece not yet ended.
pub open spec fn scan_pieces(b: Seq<u8>, sep: u8) -> (Seq<Seq<u8>>, Seq<u8>)
    decreases b.len(),
{
    if b.len() == 0 {
        (seq![], seq![])
    } else {
        let (done, cur) = scan_pieces(b.drop_last(), sep);
        if b.last() == sep {
            (done.push(cur), seq![])
        } else {
            (done, cur.push(b.last()))
        }
    }
}

/// The pieces of `b` between occurrences of `sep`, as `<[u8]>::split` gives
/// them: one more piece than there are separators, empty ones included.
pub open spec fn pieces(b: Seq<u8>, sep: u8) -> Seq<Seq<u8>> {
    let (done, cur) = scan_pieces(b, sep);
    done.push(cur)
}

/// The byte strings held by a vector of byte vectors.
pub open spec fn byte_views(v: Seq<Vec<u8>>) -> Seq<Seq<u8>> {
    v.map_values(|x: Vec<u8>| x@)
}

/// The log entry that the texts of the fields of one record hold, if there
/// are the six that every entry has; a seventh is the body.
pub open spec fn log_from_texts(fields: Seq<Seq<char>>) -> Option<LogView> {
    if fields.len() < 6 {
        None
    } else {
        Some(
            LogView {
                author: fields[0],
                long_date: fields[1],
                short_date: fields[2],
                long_hash: fields[3],
                short_hash: fields[4],
                subject: fields[5],
                body: if fields.len() > 6 {
                    Some(fields[6])
                } else {
                    None
                },
            },
        )
    }
}

/// The text of an optional log entry.
pub open spec fn option_log_view(log: Option<Log>) -> Option<LogView> {
    match log {
        Some(l) => Some(l@),
        None => None,
    }
}

/// The log entry held by one record: its fields, split at `US`, each decoded
/// lossily.
pub open spec fn log_of(record: Seq<u8>) -> Option<LogView> {
    log_from_texts(pieces(record, GitParser::US).map_values(|f: Seq<u8>| decoded(f)))
}

/// The entries of the records that are complete, in order.
pub open spec fn logs_of(records: Seq<Seq<u8>>) -> Seq<LogView>
    decreases records.len(),
{
    if records.len() == 0 {
        seq![]
    } else {
        match log_of(records.last()) {
            Some(log) => logs_of(records.drop_last()).push(log),
            None => logs_of(records.drop_last()),
        }
    }
}

/// Whether a line opens a hunk.
pub open spec fn is_hunk_header(line: Seq<char>) -> bool {
    seq!['@', '@'].is_prefix_of(line)
}

/// The hunks of a diff's lines: each line that opens a hunk starts a new one,
/// each other line goes to the hunk opened last, and lines before the first
/// hunk are dropped.
pub open spec fn group_hunks(ls: Seq<Seq<char>>) -> Seq<(Seq<char>, Seq<Seq<char>>)>
    decreases ls.len(),
{
    if ls.len() == 0 {
        seq![]
    } else {
        let hs = group_hunks(ls.drop_last());
        let l = ls.last();
        if is_hunk_header(l) {
            hs.push((l, seq![]))
        } else if hs.len() > 0 {
            hs.update(hs.len() - 1, (hs.last().0, hs.last().1.push(l)))
        } else {
            hs
        }
    }
}

/// `ls` without its first `n` items; empty where it has no more than `n`.
pub open spec fn skip_first<A>(ls: Seq<A>, n: nat) -> Seq<A> {
    if ls.len() <= n {
        seq![]
    } else {
        ls.skip(n as int)
    }
}

/// The number of bytes that UTF-8 takes for `c`.
pub open spec fn utf8_width(c: char) -> nat {
    let u = c as u32;
    if u < 0x80 {
        1
    } else if u < 0x800 {
        2
    } else if u < 0x10000 {
        3
    } else {
        4
    }
}

/// Whether the first two bytes of `line` encode whole characters, so that
/// the line can be cut after them.
pub open spec fn cuts_after_two_bytes(line: Seq<char>) -> bool {
    ||| (line.len() >= 1 && utf8_width(line[0]) == 2)
    ||| (line.len() >= 2 && utf8_width(line[0]) == 1 && utf8_width(line[1]) == 1)
}

/// What follows the first two bytes of `line`.
pub open spec fn after_two_bytes(line: Seq<char>) -> Seq<char> {
    if utf8_width(line[0]) == 2 {
        line.skip(1)
    } else {
        line.skip(2)
    }
}

/// Whether a line of `git branch` marks the current branch.
pub open spec fn is_current_line(line: Seq<char>) -> bool {
    seq!['*', ' '].is_prefix_of(line)
}

/// The branch that the last line marked current names; empty where no line
/// is marked.
pub open spec fn current_branch(ls: Seq<Seq<char>>) -> Seq<char>
    decreases ls.len(),
{
    if ls.len() == 0 {
        seq![]
    } else if is_current_line(ls.last()) {
        after_two_bytes(ls.last())
    } else {
        current_branch(ls.drop_last())
    }
}

/// Whether some line of `ls` that is not marked current names `name`.
pub open spec fn names_other_branch(ls: Seq<Seq<char>>, name: Seq<char>) -> bool {
    exists|i: int|
        0 <= i < ls.len() && !is_current_line(ls[i]) && #[trigger] after_two_bytes(ls[i]) == name
}

/// `current` and `other` are what the lines `ls` of `git branch` say: the
/// current branch, and the other branches, local, ordered by name, each name
/// once.
pub open spec fn local_branches_match(
    ls: Seq<Seq<char>>,
    current: Seq<char>,
    other: Seq<Branch>,
) -> bool {
    &&& current == current_branch(ls)
    &&& names_ascending(other)
    &&& forall|i: int| 0 <= i < other.len() ==> (#[trigger] other[i]).area == BranchArea::Local
    &&& forall|name: Seq<char>| has_name(other, name) <==> names_other_branch(ls, name)
}

/// Every line can be cut after its first two bytes.
pub open spec fn all_cut_after_two_bytes(ls: Seq<Seq<char>>) -> bool {
    forall|i: int| 0 <= i < ls.len() ==> cuts_after_two_bytes(#[trigger] ls[i])
}

/// The errors of `GitParser::parse_numstat`.
#[derive(Debug, PartialEq, Eq)]
pub enum NumstatError {
    /// The output held fewer than two words.
    MissingCounts,
}

/// Reads the output of git commands.
pub struct GitParser;

impl Default for GitParser {
    fn default() -> (p: Self) {
        GitParser
    }
}

/// `bytes[from..to]` as a vector.
fn copy_range(bytes: &[u8], from: usize, to: usize) -> (v: Vec<u8>)
    requires
        from <= to <= bytes.len(),
    ensures
        v@ == bytes@.subrange(from as int, to as int),
{
    let mut v: Vec<u8> = Vec::new();
    let mut i = from;
    while i < to
        invariant
            from <= i <= to <= bytes.len(),
            v@ == bytes@.subrange(from as int, i as int),
        decreases to - i,
    {
        v.push(bytes[i]);
        i = i + 1;
        assert(v@ =~= bytes@.subrange(from as int, i as int));
    }
    v
}

/// The pieces of `bytes` between occurrences of `sep`.
pub fn split_by_byte(bytes: &[u8], sep: u8) -> (v: Vec<Vec<u8>>)
    ensures
        byte_views(v@) == pieces(bytes@, sep),
{
    let mut v: Vec<Vec<u8>> = Vec::new();
    let mut start: usize = 0;
    let mut i: usize = 0;
    while i < bytes.len()
        invariant
            start <= i <= bytes.len(),
            scan_pieces(bytes@.take(i as int), sep) == (
                byte_views(v@),
                bytes@.subrange(start as int, i as int),
            ),
        decreases bytes.len() - i,
    {
        assert(bytes@.take(i + 1).drop_last() =~= bytes@.take(i as int));
        if bytes[i] == sep {
            let piece = copy_range(bytes, start, i);
            let ghost old_v = v@;
            v.push(piece);
            assert(byte_views(v@) =~= byte_views(old_v).push(
                bytes@.subrange(start as int, i as int),
            ));
            start = i + 1;
        } else {
            assert(bytes@.subrange(start as int, i + 1) =~= bytes@.subrange(
                start as int,
                i as int,
            ).push(bytes[i as int]));
        }
        i = i + 1;
        assert(start == i ==> bytes@.subrange(start as int, i as int) =~= seq![]);
    }
    assert(bytes@.take(i as int) =~= bytes@);
    let piece = copy_range(bytes, start, bytes.len());
    let ghost old_v = v@;
    v.push(piece);
    assert(byte_views(v@) =~= byte_views(old_v).push(bytes@.subrange(start as int, i as int)));
    v
}

/// The text of `line` after its first two bytes.
fn cut_after_two_bytes(line: &String) -> (name: String)
    requires
        cuts_after_two_bytes(line@),
    ensures
        name@ == after_two_bytes(line@),
{
    let chars = chars_of(line.as_str());
    let first = chars[0] as u32;
    let skip: usize = if 0x80 <= first && first < 0x800 {
        1
    } else {
        2
    };
    string_from(&chars, skip, chars.len())
}

/// Whether every line can be cut after its first two bytes.
fn all_cut(lines: &Vec<String>) -> (b: bool)
    ensures
        b == all_cut_after_two_bytes(views(lines@)),
{
    let mut i: usize = 0;
    while i < lines.len()
        invariant
            i <= lines.len(),
            forall|k: int| 0 <= k < i ==> cuts_after_two_bytes(#[trigger] views(lines@)[k]),
        decreases lines.len() - i,
    {
        let chars = chars_of(lines[i].as_str());
        let ok = if chars.len() >= 1 && 0x80 <= chars[0] as u32 && (chars[0] as u32) < 0x800 {
            true
        } else {
            chars.len() >= 2 && (chars[0] as u32) < 0x80 && (chars[1] as u32) < 0x80
        };
        if !ok {
            assert(!cuts_after_two_bytes(views(lines@)[i as int]));
            return false;
        }
        i = i + 1;
    }
    true
}

/// The current branch and the other branches that the lines of `git branch`
/// name.
fn local_branches_of(lines: &Vec<String>) -> (r: (String, BranchSet))
    requires
        all_cut_after_two_bytes(views(lines@)),
    ensures
        local_branches_match(views(lines@), r.0@, r.1@),
{
    let ghost ls = views(lines@);
    let mut current = String::new();
    let mut other = BranchSet::new();
    let mut i: usize = 0;
    let star = "* ";
    proof {
        reveal_strlit("* ");
    }
    while i < lines.len()
        invariant
            i <= lines.len(),
            ls == views(lines@),
            all_cut_after_two_bytes(ls),
            star@ == seq!['*', ' '],
            local_branches_match(ls.take(i as int), current@, other@),
        decreases lines.len() - i,
    {
        let ghost prev = ls.take(i as int);
        assert(ls.take(i + 1).drop_last() =~= prev);
        assert(ls.take(i + 1).last() == ls[i as int]);
        assert(cuts_after_two_bytes(ls[i as int]));
        let name = cut_after_two_bytes(&lines[i]);
        if starts_with(lines[i].as_str(), star) {
            current = name;
            assert forall|n: Seq<char>| names_other_branch(prev, n) <==> names_other_branch(
                ls.take(i + 1),
                n,
            ) by {
                if names_other_branch(ls.take(i + 1), n) {
                    let k = choose|k: int|
                        0 <= k < ls.take(i + 1).len() && !is_current_line(ls.take(i + 1)[k])
                            && #[trigger] after_two_bytes(ls.take(i + 1)[k]) == n;
                    assert(prev[k] == ls.take(i + 1)[k]);
                }
                if names_other_branch(prev, n) {
                    let k = choose|k: int|
                        0 <= k < prev.len() && !is_current_line(prev[k])
                            && #[trigger] after_two_bytes(prev[k]) == n;
                    assert(prev[k] == ls.take(i + 1)[k]);
                }
            }
        } else {
            let ghost before = other@;
            let ghost b = Branch { name: name, area: BranchArea::Local };
            other.insert(Branch { name, area: BranchArea::Local });
            assert forall|n: Seq<char>| has_name(other@, n) <==> names_other_branch(
                ls.take(i + 1),
                n,
            ) by {
                if has_name(other@, n) {
                    if n == b.name@ {
                        assert(after_two_bytes(ls.take(i + 1)[i as int]) == n);
                    } else {
                        let k = choose|k: int| 0 <= k < other@.len() && #[trigger] other@[k].name@ == n;
                        if other@ != before {
                            let p = choose|p: int|
                                0 <= p <= before.len() && other@ == before.insert(p, b);
                            if k < p {
                                assert(before[k] == other@[k]);
                            } else {
                                assert(before[k - 1] == other@[k]);
                            }
                        } else {
                            assert(before[k] == other@[k]);
                        }
                        assert(has_name(before, n));
                        let m = choose|m: int|
                            0 <= m < prev.len() && !is_current_line(prev[m])
                                && #[trigger] after_two_bytes(prev[m]) == n;
                        assert(prev[m] == ls.take(i + 1)[m]);
                    }
                }
                if names_other_branch(ls.take(i + 1), n) {
                    let k = choose|k: int|
                        0 <= k < ls.take(i + 1).len() && !is_current_line(ls.take(i + 1)[k])
                            && #[trigger] after_two_bytes(ls.take(i + 1)[k]) == n;
                    if k < i {
                        assert(prev[k] == ls.take(i + 1)[k]);
                        assert(names_other_branch(prev, n));
                        assert(has_name(before, n));
                        let m = choose|m: int| 0 <= m < before.len() && #[trigger] before[m].name@ == n;
                        if other@ != before {
                            let p = choose|p: int|
                                0 <= p <= before.len() && other@ == before.insert(p, b);
                            if m < p {
                                assert(other@[m] == before[m]);
                            } else {
                                assert(other@[m + 1] == before[m]);
                            }
                        } else {
                            assert(other@[m] == before[m]);
                        }
                    } else {
                        if other@ != before {
                            let p = choose|p: int|
                                0 <= p <= before.len() && other@ == before.insert(p, b);
                            assert(other@[p] == b);
                        } else {
                            let m = choose|m: int| 0 <= m < before.len() && #[trigger] before[m].name@ == b.name@;
                            assert(other@[m] == before[m]);
                        }
                    }
                }
            }
            assert forall|k: int| 0 <= k < other@.len() implies (#[trigger] other@[k]).area
                == BranchArea::Local by {
                if other@ != before {
                    let p = choose|p: int|
                        0 <= p <= before.len() && other@ == before.insert(p, b);
                    if k < p {
                        assert(other@[k] == before[k]);
                    } else if k > p {
                        assert(other@[k] == before[k - 1]);
                    }
                } else {
                    assert(other@[k] == before[k]);
                }
            }
        }
        i = i + 1;
    }
    assert(ls.take(i as int) =~= ls);
    (current, other)
}

impl GitParser {
    /// The separator of log records.
    pub const NULL: u8 = 0x00;

    /// The separator of the fields of a log record.
    pub const US: u8 = 0x1f;

    /// The paths that `git diff --name-only` and its kin print, one per
    /// non-empty line, each with `area`.
    pub fn parse_diff_keys(&self, bytes: &[u8], area: DiffArea) -> (keys: Vec<DiffKey>)
        ensures
            keys.len() == non_empty(lines(decoded(bytes@))).len(),
            forall|i: int|
                0 <= i < keys.len() ==> (#[trigger] keys@[i]).path@ == non_empty(
                    lines(decoded(bytes@)),
                )[i] && keys@[i].area == area,
    {
        let text = decode_lossy(bytes);
        self.diff_keys_in(text.as_str(), area)
    }

    /// The paths of the non-empty lines of `text`, each with `area`.
    pub fn diff_keys_in(&self, text: &str, area: DiffArea) -> (keys: Vec<DiffKey>)
        ensures
            keys.len() == non_empty(lines(text@)).len(),
            forall|i: int|
                0 <= i < keys.len() ==> (#[trigger] keys@[i]).path@ == non_empty(lines(text@))[i]
                    && keys@[i].area == area,
    {
        let paths = non_empty_lines(text);
        let mut keys: Vec<DiffKey> = Vec::new();
        let mut i: usize = 0;
        while i < paths.len()
            invariant
                i <= paths.len(),
                views(paths@) == non_empty(lines(text@)),
                keys.len() == i,
                forall|k: int|
                    0 <= k < i ==> (#[trigger] keys@[k]).path@ == paths@[k]@ && keys@[k].area
                        == area,
            decreases paths.len() - i,
        {
            keys.push(DiffKey { path: paths[i].clone(), area });
            i = i + 1;
        }
        keys
    }

    /// The hunks of a `git diff` of one path: its first four lines, the
    /// header of the diff, are skipped.
    pub fn parse_hunks(&self, bytes: &[u8]) -> (hunks: Vec<Hunk>)
        ensures
            hunks@.map_values(|h: Hunk| h@) == group_hunks(
                skip_first(lines(decoded(bytes@)), 4),
            ),
    {
        let text = decode_lossy(bytes);
        self.hunks_in(text.as_str())
    }

    /// The hunks of the diff `text` of one path, after its four header lines.
    pub fn hunks_in(&self, text: &str) -> (hunks: Vec<Hunk>)
        ensures
            hunks@.map_values(|h: Hunk| h@) == group_hunks(skip_first(lines(text@), 4)),
    {
        let all = lines_of(text);
        let ghost ls = skip_first(views(all@), 4);
        let mut hunks: Vec<Hunk> = Vec::new();
        if all.len() <= 4 {
            assert(hunks@.map_values(|h: Hunk| h@) =~= group_hunks(ls));
            return hunks;
        }
        let at = "@@";
        proof {
            reveal_strlit("@@");
        }
        let mut i: usize = 4;
        assert(ls.take(0) =~= seq![]);
        while i < all.len()
            invariant
                4 <= i <= all.len(),
                ls == views(all@).skip(4),
                at@ == seq!['@', '@'],
                hunks@.map_values(|h: Hunk| h@) == group_hunks(ls.take(i - 4)),
            decreases all.len() - i,
        {
            let ghost prev = ls.take(i - 4);
            assert(ls.take(i - 3).drop_last() =~= prev);
            assert(ls.take(i - 3).last() == all@[i as int]@);
            let ghost before = hunks@.map_values(|h: Hunk| h@);
            if starts_with(all[i].as_str(), at) {
                let hunk = Hunk { header: all[i].clone(), lines: Vec::new() };
                assert(views(hunk.lines@) =~= seq![]);
                hunks.push(hunk);
                assert(hunks@.map_values(|h: Hunk| h@) =~= before.push(
                    (all@[i as int]@, seq![]),
                ));
            } else if hunks.len() > 0 {
                let mut last = hunks.pop().unwrap();
                let ghost lv = last@;
                last.lines.push(all[i].clone());
                assert(views(last.lines@) =~= lv.1.push(all@[i as int]@));
                hunks.push(last);
                assert(hunks@.map_values(|h: Hunk| h@) =~= before.update(
                    before.len() - 1,
                    (before.last().0, before.last().1.push(all@[i as int]@)),
                ));
            }
            i = i + 1;
        }
        assert(ls.take(i - 4) =~= ls);
        hunks
    }

    /// The current branch and the other local branches, from the output of
    /// `git branch`: each non-empty line is cut after its first two bytes,
    /// and a line that begins with `"* "` names the current branch.
    pub fn parse_local_branches(&self, bytes: &[u8]) -> (r: (String, BranchSet))
        requires
            all_cut_after_two_bytes(non_empty(lines(decoded(bytes@)))),
        ensures
            local_branches_match(non_empty(lines(decoded(bytes@))), r.0@, r.1@),
    {
        let lines = split_by_newline(bytes);
        self.local_branches_in(&lines)
    }

    /// `parse_local_branches`, where a line too short to be cut after two
    /// bytes gives `None` in place of a panic.
    pub fn try_parse_local_branches(&self, bytes: &[u8]) -> (r: Option<(String, BranchSet)>)
        ensures
            r is Some <==> all_cut_after_two_bytes(non_empty(lines(decoded(bytes@)))),
            r matches Some(x) ==> local_branches_match(
                non_empty(lines(decoded(bytes@))),
                x.0@,
                x.1@,
            ),
    {
        let lines = split_by_newline(bytes);
        if all_cut(&lines) {
            Some(self.parse_local_branches(bytes))
        } else {
            None
        }
    }

    /// The current branch and the other local branches that the lines of
    /// `git branch` name.
    pub fn local_branches_in(&self, lines: &Vec<String>) -> (r: (String, BranchSet))
        requires
            all_cut_after_two_bytes(views(lines@)),
        ensures
            local_branches_match(views(lines@), r.0@, r.1@),
    {
        local_branches_of(lines)
    }

    /// The entries of `git log` printed with fields separated by `US` and
    /// records ended by `NULL`; records with fewer than six fields are
    /// dropped.
    pub fn parse_logs(&self, bytes: &[u8]) -> (logs: Vec<Log>)
        ensures
            logs@.map_values(|l: Log| l@) == logs_of(pieces(bytes@, Self::NULL)),
    {
        let records = split_by_byte(bytes, Self::NULL);
        let mut logs: Vec<Log> = Vec::new();
        let mut i: usize = 0;
        while i < records.len()
            invariant
                i <= records.len(),
                byte_views(records@) == pieces(bytes@, Self::NULL),
                logs@.map_values(|l: Log| l@) == logs_of(byte_views(records@).take(i as int)),
            decreases records.len() - i,
        {
            let ghost rs = byte_views(records@);
            assert(rs.take(i + 1).drop_last() =~= rs.take(i as int));
            assert(rs.take(i + 1).last() == records@[i as int]@);
            let fields = split_by_byte(records[i].as_slice(), Self::US);
            let mut texts: Vec<String> = Vec::new();
            let mut k: usize = 0;
            while k < fields.len()
                invariant
                    k <= fields.len(),
                    texts@.len() == k,
                    forall|j: int| 0 <= j < k ==> #[trigger] texts@[j]@ == decoded(fields@[j]@),
                decreases fields.len() - k,
            {
                texts.push(decode_lossy(fields[k].as_slice()));
                k = k + 1;
            }
            assert(views(texts@) =~= byte_views(fields@).map_values(|f: Seq<u8>| decoded(f)));
            let ghost before = logs@.map_values(|l: Log| l@);
            match Self::log_from_fields(texts) {
                Some(log) => {
                    logs.push(log);
                    assert(logs@.map_values(|l: Log| l@) =~= before.push(log@));
                },
                None => {},
            }
            i = i + 1;
        }
        assert(byte_views(records@).take(i as int) =~= byte_views(records@));
        logs
    }

    /// The log entry that the fields of one record hold, if there are the
    /// six that every entry has; a seventh is the body.
    pub fn log_from_fields(fields: Vec<String>) -> (log: Option<Log>)
        ensures
            option_log_view(log) == log_from_texts(views(fields@)),
    {
        if fields.len() < 6 {
            return None;
        }
        let body = if fields.len() > 6 {
            Some(fields[6].clone())
        } else {
            None
        };
        let log = Log {
            author: fields[0].clone(),
            long_date: fields[1].clone(),
            short_date: fields[2].clone(),
            long_hash: fields[3].clone(),
            short_hash: fields[4].clone(),
            subject: fields[5].clone(),
            body,
        };
        Some(log)
    }

    /// The counts of added and removed lines that `git diff --numstat` prints
    /// first; an error where the output holds fewer than two words.
    pub fn parse_numstat(&self, bytes: &[u8]) -> (r: Result<DiffNumstat, NumstatError>)
        ensures
            words(decoded(bytes@)).len() >= 2 <==> r is Ok,
            r matches Ok(n) ==> n.additions@ == words(decoded(bytes@))[0]
                && n.deletions@ == words(decoded(bytes@))[1],
            r matches Err(e) ==> e == NumstatError::MissingCounts,
    {
        let text = decode_lossy(bytes);
        self.numstat_in(text.as_str())
    }

    /// The first two words of `text`, as added and removed line counts; an
    /// error where it holds fewer.
    pub fn numstat_in(&self, text: &str) -> (r: Result<DiffNumstat, NumstatError>)
        ensures
            words(text@).len() >= 2 <==> r is Ok,
            r matches Ok(n) ==> n.additions@ == words(text@)[0] && n.deletions@ == words(text@)[1],
            r matches Err(e) ==> e == NumstatError::MissingCounts,
    {
        let counts = words_take(text, 2);
        assert(views(counts@).len() == counts@.len());
        if counts.len() < 2 {
            return Err(NumstatError::MissingCounts);
        }
        assert(views(counts@)[0] == counts@[0]@);
        assert(views(counts@)[1] == counts@[1]@);
        Ok(DiffNumstat { additions: counts[0].clone(), deletions: counts[1].clone() })
    }
}

/// Every hunk opens with its header line.
pub proof fn lemma_hunks_open_with_header(ls: Seq<Seq<char>>)
    ensures
        forall|i: int| 0 <= i < group_hunks(ls).len() ==> is_hunk_header(#[trigger] group_hunks(ls)[i].0),
    decreases ls.len(),
{
    if ls.len() > 0 {
        lemma_hunks_open_with_header(ls.drop_last());
        let hs = group_hunks(ls.drop_last());
        assert forall|i: int| 0 <= i < group_hunks(ls).len() implies is_hunk_header(
            #[trigger] group_hunks(ls)[i].0,
        ) by {
            if i < hs.len() {
                assert(group_hunks(ls)[i].0 == hs[i].0);
            }
        }
    }
}

/// Each record gives at most one log entry.
pub proof fn lemma_logs_at_most_records(records: Seq<Seq<u8>>)
    ensures
        logs_of(records).len() <= records.len(),
    decreases records.len(),
{
    if records.len() > 0 {
        lemma_logs_at_most_records(records.drop_last());
    }
}

} // verus!
