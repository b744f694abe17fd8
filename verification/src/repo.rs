//! The state of an open repository: its changed paths, its branches and its
//! log, grouped by day.
use crate::common::{
    area_rank, has_branch, has_name, key_lt, lemma_branches_inserted, names_ascending, Branch,
    BranchArea, BranchSet, Branches, Diff, DiffArea, DiffKey,
};
use crate::git::{diff_commands, GitCommand};
use crate::order::{lemma_text_lt_order, text_less, text_lt};
use crate::parser::Log;
use crate::text::{after_first, chars_of, lines, option_chars, split_once_rest, views};
use std::path::PathBuf;
use vstd::prelude::*;

verus! {

/// The dates of `groups` are strictly descending: the newest day first.
pub open spec fn dates_descending(groups: Seq<(Seq<char>, Seq<Log>)>) -> bool {
    forall|i: int, j: int|
        0 <= i < j < groups.len() ==> text_lt(#[trigger] groups[j].0, #[trigger] groups[i].0)
}

/// Whether some group of `groups` is dated `date`.
pub open spec fn has_date(groups: Seq<(Seq<char>, Seq<Log>)>, date: Seq<char>) -> bool {
    exists|i: int| 0 <= i < groups.len() && #[trigger] groups[i].0 == date
}

/// Every group holds at least one entry.
pub open spec fn groups_non_empty(groups: Seq<(Seq<char>, Seq<Log>)>) -> bool {
    forall|i: int| 0 <= i < groups.len() ==> (#[trigger] groups[i]).1.len() > 0
}

/// The entries dated `date`, in the order they were added; empty for a day
/// that has none.
pub open spec fn logs_on(groups: Seq<(Seq<char>, Seq<Log>)>, date: Seq<char>) -> Seq<Log> {
    if has_date(groups, date) {
        groups[choose|i: int| 0 <= i < groups.len() && #[trigger] groups[i].0 == date].1
    } else {
        seq![]
    }
}

/// The entries of `logs` whose short date is `date`, in order.
pub open spec fn entries_dated(logs: Seq<Log>, date: Seq<char>) -> Seq<Log>
    decreases logs.len(),
{
    if logs.len() == 0 {
        seq![]
    } else if logs.last().short_date@ == date {
        entries_dated(logs.drop_last(), date).push(logs.last())
    } else {
        entries_dated(logs.drop_last(), date)
    }
}

/// In descending groups, a date names at most one group, and `logs_on` finds it.
pub proof fn lemma_logs_on_index(groups: Seq<(Seq<char>, Seq<Log>)>, i: int)
    requires
        dates_descending(groups),
        0 <= i < groups.len(),
    ensures
        logs_on(groups, groups[i].0) == groups[i].1,
{
    let d = groups[i].0;
    assert(has_date(groups, d));
    let j = choose|j: int| 0 <= j < groups.len() && #[trigger] groups[j].0 == d;
    lemma_text_lt_order(d, d, d);
    if j < i {
        assert(text_lt(groups[i].0, groups[j].0));
    } else if j > i {
        assert(text_lt(groups[j].0, groups[i].0));
    }
    assert(logs_on(groups, d) == groups[j].1);
}

/// How `logs_on` changes when an entry joins the group of its day.
proof fn lemma_logs_on_after_update(
    before: Seq<(Seq<char>, Seq<Log>)>,
    after: Seq<(Seq<char>, Seq<Log>)>,
    i: int,
    log: Log,
)
    requires
        dates_descending(before),
        dates_descending(after),
        0 <= i < before.len(),
        before[i].0 == log.short_date@,
        after == before.update(i, (before[i].0, before[i].1.push(log))),
    ensures
        forall|d: Seq<char>|
            #[trigger] logs_on(after, d) == if d == log.short_date@ {
                logs_on(before, d).push(log)
            } else {
                logs_on(before, d)
            },
{
    assert forall|d: Seq<char>|
        #[trigger] logs_on(after, d) == if d == log.short_date@ {
            logs_on(before, d).push(log)
        } else {
            logs_on(before, d)
        } by {
        lemma_text_lt_order(d, d, d);
        if has_date(after, d) {
            let k = choose|k: int| 0 <= k < after.len() && #[trigger] after[k].0 == d;
            lemma_logs_on_index(after, k);
            lemma_logs_on_index(before, k);
            lemma_logs_on_index(after, i);
            if k != i {
                if d == log.short_date@ {
                    if k < i {
                        assert(text_lt(after[i].0, after[k].0));
                    } else {
                        assert(text_lt(after[k].0, after[i].0));
                    }
                }
            }
        } else {
            if has_date(before, d) {
                let k = choose|k: int| 0 <= k < before.len() && #[trigger] before[k].0 == d;
                assert(after[k].0 == d);
            }
            assert(after[i].0 == log.short_date@);
        }
    }
}

/// How `logs_on` changes when an entry opens a group for a new day.
proof fn lemma_logs_on_after_insert(
    before: Seq<(Seq<char>, Seq<Log>)>,
    after: Seq<(Seq<char>, Seq<Log>)>,
    p: int,
    log: Log,
)
    requires
        dates_descending(before),
        dates_descending(after),
        0 <= p <= before.len(),
        !has_date(before, log.short_date@),
        after == before.insert(p, (log.short_date@, seq![log])),
    ensures
        forall|d: Seq<char>|
            #[trigger] logs_on(after, d) == if d == log.short_date@ {
                logs_on(before, d).push(log)
            } else {
                logs_on(before, d)
            },
{
    assert forall|d: Seq<char>|
        #[trigger] logs_on(after, d) == if d == log.short_date@ {
            logs_on(before, d).push(log)
        } else {
            logs_on(before, d)
        } by {
        lemma_text_lt_order(d, d, d);
        lemma_logs_on_index(after, p);
        assert(logs_on(before, log.short_date@) =~= seq![]);
        assert(seq![log] =~= Seq::<Log>::empty().push(log));
        if has_date(after, d) {
            let k = choose|k: int| 0 <= k < after.len() && #[trigger] after[k].0 == d;
            lemma_logs_on_index(after, k);
            if k < p {
                lemma_logs_on_index(before, k);
                assert(text_lt(after[p].0, after[k].0));
            } else if k > p {
                lemma_logs_on_index(before, k - 1);
                assert(text_lt(after[k].0, after[p].0));
            }
        } else {
            if has_date(before, d) {
                let k = choose|k: int| 0 <= k < before.len() && #[trigger] before[k].0 == d;
                if k < p {
                    assert(after[k].0 == d);
                } else {
                    assert(after[k + 1].0 == d);
                }
            }
        }
    }
}

/// The log, grouped by the short date of each entry, the newest day first.
pub struct DatedLogs {
    groups: Vec<(String, Vec<Log>)>,
}

impl View for DatedLogs {
    type V = Seq<(Seq<char>, Seq<Log>)>;

    closed spec fn view(&self) -> Seq<(Seq<char>, Seq<Log>)> {
        self.groups@.map_values(|g: (String, Vec<Log>)| (g.0@, g.1@))
    }
}

impl DatedLogs {
    #[verifier::type_invariant]
    closed spec fn descending(self) -> bool {
        dates_descending(self@) && groups_non_empty(self@)
    }

    /// No entry at all.
    pub fn new() -> (logs: Self)
        ensures
            logs@ == Seq::<(Seq<char>, Seq<Log>)>::empty(),
    {
        let logs = DatedLogs { groups: Vec::new() };
        assert(logs@ =~= Seq::<(Seq<char>, Seq<Log>)>::empty());
        logs
    }

    /// The groups: each date with its entries in the order they were added.
    pub fn groups(&self) -> (g: &[(String, Vec<Log>)])
        ensures
            g@.map_values(|x: (String, Vec<Log>)| (x.0@, x.1@)) == self@,
            dates_descending(self@),
            groups_non_empty(self@),
    {
        proof {
            use_type_invariant(self);
        }
        self.groups.as_slice()
    }

    /// The number of days.
    pub fn len(&self) -> (n: usize)
        ensures
            n == self@.len(),
    {
        self.groups.len()
    }

    /// Adds `log` at the end of the entries of its day; a day not seen yet
    /// gets a group of its own, in its place among the others.
    pub fn add(&mut self, log: Log)
        ensures
            has_date(old(self)@, log.short_date@) ==> exists|i: int|
                0 <= i < old(self)@.len() && old(self)@[i].0 == log.short_date@ && final(self)@
                    == old(self)@.update(i, (old(self)@[i].0, old(self)@[i].1.push(log))),
            !has_date(old(self)@, log.short_date@) ==> exists|p: int|
                0 <= p <= old(self)@.len() && final(self)@ == old(self)@.insert(
                    p,
                    (log.short_date@, seq![log]),
                ),
            dates_descending(final(self)@),
            groups_non_empty(final(self)@),
            forall|d: Seq<char>|
                #[trigger] logs_on(final(self)@, d) == if d == log.short_date@ {
                    logs_on(old(self)@, d).push(log)
                } else {
                    logs_on(old(self)@, d)
                },
    {
        proof {
            use_type_invariant(&*self);
        }
        let ghost before = self@;
        let ghost d = log.short_date@;
        let mut i: usize = 0;
        while i < self.groups.len() && text_less(
            log.short_date.as_str(),
            self.groups[i].0.as_str(),
        )
            invariant
                i <= self.groups.len(),
                self@ == before,
                dates_descending(before),
                d == log.short_date@,
                groups_non_empty(before),
                forall|k: int| 0 <= k < i ==> text_lt(d, #[trigger] before[k].0),
            decreases self.groups.len() - i,
        {
            assert(before[i as int].0 == self.groups@[i as int].0@);
            i = i + 1;
        }
        let mut groups: Vec<(String, Vec<Log>)> = Vec::new();
        std::mem::swap(&mut groups, &mut self.groups);
        assert(groups@.map_values(|g: (String, Vec<Log>)| (g.0@, g.1@)) == before);
        if i < groups.len() && groups[i].0 == log.short_date {
            let ghost l = log;
            assert(before[i as int].0 == d);
            let (date, mut entries) = groups.remove(i);
            entries.push(log);
            let ghost old_entries = before[i as int].1;
            groups.insert(i, (date, entries));
            let ghost after = groups@.map_values(|g: (String, Vec<Log>)| (g.0@, g.1@));
            assert(after =~= before.update(i as int, (before[i as int].0, old_entries.push(l))));
            proof {
                assert forall|x: int, y: int| 0 <= x < y < after.len() implies text_lt(
                    #[trigger] after[y].0,
                    #[trigger] after[x].0,
                ) by {
                    assert(after[x].0 == before[x].0);
                    assert(after[y].0 == before[y].0);
                }
                lemma_logs_on_after_update(before, after, i as int, l);
            }
            self.groups = groups;
            assert(self@ == after);
            assert(has_date(before, d));
            return ;
        }
        proof {
            if i < before.len() {
                assert(before[i as int].0 == groups@[i as int].0@);
                lemma_text_lt_order(d, before[i as int].0, d);
                lemma_text_lt_order(before[i as int].0, d, d);
            }
            assert forall|k: int| 0 <= k < before.len() implies #[trigger] before[k].0 != d by {
                lemma_text_lt_order(d, before[k].0, d);
                if k > i {
                    lemma_text_lt_order(before[k].0, before[i as int].0, d);
                }
            }
            assert forall|k: int| i < k < before.len() implies text_lt(
                #[trigger] before[k].0,
                d,
            ) by {
                lemma_text_lt_order(before[k].0, before[i as int].0, d);
            }
        }
        let ghost l = log;
        let mut entries: Vec<Log> = Vec::new();
        let date = log.short_date.clone();
        entries.push(log);
        groups.insert(i, (date, entries));
        let ghost after = groups@.map_values(|g: (String, Vec<Log>)| (g.0@, g.1@));
        assert(after =~= before.insert(i as int, (d, seq![l])));
        proof {
            assert forall|x: int, y: int| 0 <= x < y < after.len() implies text_lt(
                #[trigger] after[y].0,
                #[trigger] after[x].0,
            ) by {
                if y < i {
                } else if x < i && y == i {
                } else if x < i && y > i {
                    assert(after[y] == before[y - 1]);
                    lemma_text_lt_order(before[y - 1].0, d, before[x].0);
                } else if x == i {
                    assert(after[y] == before[y - 1]);
                } else {
                    assert(after[y] == before[y - 1]);
                    assert(after[x] == before[x - 1]);
                }
            }
        }
        proof {
            lemma_logs_on_after_insert(before, after, i as int, l);
        }
        self.groups = groups;
        assert(self@ == after);
        assert(final(self)@ == old(self)@.insert(i as int, (log.short_date@, seq![log])));
    }
}

/// The keys of `entries` are strictly ascending.
pub open spec fn keys_ascending(entries: Seq<(DiffKey, Diff)>) -> bool {
    forall|i: int, j: int|
        0 <= i < j < entries.len() ==> key_lt(#[trigger] entries[i].0, #[trigger] entries[j].0)
}

/// Two keys name the same path in the same area.
pub open spec fn same_key(a: DiffKey, b: DiffKey) -> bool {
    a.path@ == b.path@ && a.area == b.area
}

/// Whether some entry of `entries` has a key equal to `key`.
pub open spec fn has_key(entries: Seq<(DiffKey, Diff)>, key: DiffKey) -> bool {
    exists|i: int| 0 <= i < entries.len() && same_key(#[trigger] entries[i].0, key)
}

/// The diff that `entries` holds for `key`, if it holds one.
pub open spec fn diff_of(entries: Seq<(DiffKey, Diff)>, key: DiffKey) -> Option<Diff> {
    if has_key(entries, key) {
        Some(
            entries[choose|i: int| 0 <= i < entries.len() && same_key(#[trigger] entries[i].0, key)].1,
        )
    } else {
        None
    }
}

/// Where the keys ascend, the diff held for the key of an entry is that
/// entry's.
proof fn lemma_diff_of_index(entries: Seq<(DiffKey, Diff)>, key: DiffKey, i: int)
    requires
        keys_ascending(entries),
        0 <= i < entries.len(),
        same_key(entries[i].0, key),
    ensures
        diff_of(entries, key) == Some(entries[i].1),
{
    let j = choose|j: int| 0 <= j < entries.len() && same_key(#[trigger] entries[j].0, key);
    if j < i {
        lemma_key_lt_order(entries[j].0, entries[i].0, key);
    } else if j > i {
        lemma_key_lt_order(entries[i].0, entries[j].0, key);
    }
}

/// Setting the diff of the `i`-th entry, whose key is `key`: `key` then
/// gives `diff`, and every other key what it gave before.
proof fn lemma_diff_of_update(
    before: Seq<(DiffKey, Diff)>,
    after: Seq<(DiffKey, Diff)>,
    key: DiffKey,
    diff: Diff,
    i: int,
)
    requires
        keys_ascending(before),
        keys_ascending(after),
        0 <= i < before.len(),
        same_key(before[i].0, key),
        after == before.update(i, (before[i].0, diff)),
    ensures
        diff_of(after, key) == Some(diff),
        forall|other: DiffKey|
            !same_key(other, key) ==> #[trigger] diff_of(after, other) == diff_of(before, other),
{
    lemma_diff_of_index(after, key, i);
    assert forall|other: DiffKey| !same_key(other, key) implies #[trigger] diff_of(after, other)
        == diff_of(before, other) by {
        if has_key(before, other) {
            let m = choose|m: int| 0 <= m < before.len() && same_key(#[trigger] before[m].0, other);
            assert(m != i);
            assert(after[m] == before[m]);
            lemma_diff_of_index(before, other, m);
            lemma_diff_of_index(after, other, m);
        } else if has_key(after, other) {
            let m = choose|m: int| 0 <= m < after.len() && same_key(#[trigger] after[m].0, other);
            assert(before[m].0 == after[m].0);
        }
    }
}

/// Inserting the entry `(key, diff)` at `p` where no key was equal to `key`:
/// `key` then gives `diff`, and every other key what it gave before.
proof fn lemma_diff_of_insert(
    before: Seq<(DiffKey, Diff)>,
    after: Seq<(DiffKey, Diff)>,
    key: DiffKey,
    diff: Diff,
    p: int,
)
    requires
        keys_ascending(before),
        keys_ascending(after),
        0 <= p <= before.len(),
        after == before.insert(p, (key, diff)),
    ensures
        diff_of(after, key) == Some(diff),
        forall|other: DiffKey|
            !same_key(other, key) ==> #[trigger] diff_of(after, other) == diff_of(before, other),
{
    lemma_diff_of_index(after, key, p);
    assert forall|other: DiffKey| !same_key(other, key) implies #[trigger] diff_of(after, other)
        == diff_of(before, other) by {
        if has_key(before, other) {
            let m = choose|m: int| 0 <= m < before.len() && same_key(#[trigger] before[m].0, other);
            lemma_diff_of_index(before, other, m);
            if m < p {
                assert(after[m] == before[m]);
                lemma_diff_of_index(after, other, m);
            } else {
                assert(after[m + 1] == before[m]);
                lemma_diff_of_index(after, other, m + 1);
            }
        } else if has_key(after, other) {
            let m = choose|m: int| 0 <= m < after.len() && same_key(#[trigger] after[m].0, other);
            if m < p {
                assert(after[m] == before[m]);
            } else if m > p {
                assert(after[m] == before[m - 1]);
            }
        }
    }
}

/// The order of keys is a strict total order.
pub proof fn lemma_key_lt_order(a: DiffKey, b: DiffKey, c: DiffKey)
    ensures
        !key_lt(a, a),
        !same_key(a, b) ==> (key_lt(a, b) || key_lt(b, a)),
        !(key_lt(a, b) && key_lt(b, a)),
        key_lt(a, b) && key_lt(b, c) ==> key_lt(a, c),
        key_lt(a, b) ==> !same_key(a, b),
{
    lemma_text_lt_order(a.path@, b.path@, c.path@);
    lemma_text_lt_order(b.path@, a.path@, c.path@);
    lemma_text_lt_order(a.path@, a.path@, c.path@);
    lemma_text_lt_order(b.path@, c.path@, a.path@);
    lemma_text_lt_order(a.path@, c.path@, b.path@);
    if !same_key(a, b) && a.path@ == b.path@ {
        assert(a.area != b.area);
        assert(area_rank(a.area) != area_rank(b.area));
    }
}

/// The diff of each changed path, ordered by key.
pub struct Diffs {
    entries: Vec<(DiffKey, Diff)>,
}

impl View for Diffs {
    type V = Seq<(DiffKey, Diff)>;

    closed spec fn view(&self) -> Seq<(DiffKey, Diff)> {
        self.entries@
    }
}

impl Diffs {
    #[verifier::type_invariant]
    closed spec fn ascending(self) -> bool {
        keys_ascending(self.entries@)
    }

    /// No changed path.
    pub fn new() -> (d: Self)
        ensures
            d@ == Seq::<(DiffKey, Diff)>::empty(),
    {
        Diffs { entries: Vec::new() }
    }

    /// The entries, ordered by key.
    pub fn entries(&self) -> (e: &[(DiffKey, Diff)])
        ensures
            e@ == self@,
            keys_ascending(self@),
    {
        proof {
            use_type_invariant(self);
        }
        self.entries.as_slice()
    }

    /// The number of changed paths.
    pub fn len(&self) -> (n: usize)
        ensures
            n == self@.len(),
    {
        self.entries.len()
    }

    /// The first index whose key does not come before `key`.
    fn position(&self, key: &DiffKey) -> (i: usize)
        ensures
            i <= self@.len(),
            forall|k: int| 0 <= k < i ==> key_lt(#[trigger] self@[k].0, *key),
            i < self@.len() ==> !key_lt(self@[i as int].0, *key),
    {
        let mut i: usize = 0;
        while i < self.entries.len() && self.entries[i].0.less(key)
            invariant
                i <= self.entries.len(),
                forall|k: int| 0 <= k < i ==> key_lt(#[trigger] self@[k].0, *key),
            decreases self.entries.len() - i,
        {
            i = i + 1;
        }
        i
    }

    /// The diff of `key`, if the path changed in that area.
    pub fn get(&self, key: &DiffKey) -> (d: Option<&Diff>)
        ensures
            d is Some <==> has_key(self@, *key),
            d matches Some(x) ==> exists|i: int|
                0 <= i < self@.len() && same_key(self@[i].0, *key) && self@[i].1 == *x,
            d matches Some(x) ==> diff_of(self@, *key) == Some(*x),
            d is None ==> diff_of(self@, *key) is None,
    {
        proof {
            use_type_invariant(self);
        }
        let i = self.position(key);
        if i < self.entries.len() && self.entries[i].0 == *key {
            proof {
                lemma_diff_of_index(self@, *key, i as int);
            }
            return Some(&self.entries[i].1);
        }
        proof {
            assert forall|k: int| 0 <= k < self@.len() implies !same_key(
                #[trigger] self@[k].0,
                *key,
            ) by {
                lemma_key_lt_order(self@[k].0, *key, *key);
                if k > i {
                    lemma_key_lt_order(self@[i as int].0, self@[k].0, *key);
                    lemma_key_lt_order(*key, self@[i as int].0, self@[k].0);
                }
                if k == i {
                    lemma_key_lt_order(self@[k].0, *key, *key);
                }
            }
        }
        None
    }

    /// Sets the diff of `key`, replacing the one it had.
    pub fn insert(&mut self, key: DiffKey, diff: Diff)
        ensures
            has_key(old(self)@, key) ==> exists|i: int|
                0 <= i < old(self)@.len() && same_key(old(self)@[i].0, key) && final(self)@
                    == old(self)@.update(i, (old(self)@[i].0, diff)),
            !has_key(old(self)@, key) ==> exists|p: int|
                0 <= p <= old(self)@.len() && final(self)@ == old(self)@.insert(p, (key, diff)),
            keys_ascending(final(self)@),
            diff_of(final(self)@, key) == Some(diff),
            forall|other: DiffKey|
                !same_key(other, key) ==> #[trigger] diff_of(final(self)@, other) == diff_of(
                    old(self)@,
                    other,
                ),
    {
        proof {
            use_type_invariant(&*self);
        }
        let ghost before = self@;
        let i = self.position(&key);
        let mut entries: Vec<(DiffKey, Diff)> = Vec::new();
        std::mem::swap(&mut entries, &mut self.entries);
        if i < entries.len() && entries[i].0 == key {
            let ghost dv = diff;
            let (k, _) = entries.remove(i);
            let ghost kk = k;
            entries.insert(i, (k, diff));
            assert(entries@ =~= before.update(i as int, (before[i as int].0, dv)));
            proof {
                assert forall|x: int, y: int| 0 <= x < y < entries@.len() implies key_lt(
                    #[trigger] entries@[x].0,
                    #[trigger] entries@[y].0,
                ) by {
                    assert(before[x].0 == entries@[x].0 || x == i);
                }
            }
            self.entries = entries;
            assert(has_key(before, key));
            assert(final(self)@ == old(self)@.update(i as int, (old(self)@[i as int].0, diff)));
            proof {
                lemma_diff_of_update(before, self@, key, dv, i as int);
            }
            return ;
        }
        proof {
            assert forall|k: int| 0 <= k < before.len() implies !same_key(
                #[trigger] before[k].0,
                key,
            ) by {
                lemma_key_lt_order(before[k].0, key, key);
                if k > i {
                    lemma_key_lt_order(before[i as int].0, before[k].0, key);
                    lemma_key_lt_order(key, before[i as int].0, before[k].0);
                }
            }
            if i < before.len() {
                lemma_key_lt_order(before[i as int].0, key, key);
                lemma_key_lt_order(key, before[i as int].0, key);
            }
            assert forall|k: int| i < k < before.len() implies key_lt(
                key,
                #[trigger] before[k].0,
            ) by {
                lemma_key_lt_order(key, before[i as int].0, before[k].0);
                lemma_key_lt_order(before[i as int].0, key, before[k].0);
            }
        }
        let ghost kd = (key, diff);
        entries.insert(i, (key, diff));
        proof {
            assert forall|x: int, y: int| 0 <= x < y < entries@.len() implies key_lt(
                #[trigger] entries@[x].0,
                #[trigger] entries@[y].0,
            ) by {
                if y < i {
                } else if x < i && y == i {
                } else if x < i && y > i {
                    assert(entries@[y] == before[y - 1]);
                    lemma_key_lt_order(before[x].0, kd.0, before[y - 1].0);
                } else if x == i {
                    assert(entries@[y] == before[y - 1]);
                } else {
                    assert(entries@[y] == before[y - 1]);
                    assert(entries@[x] == before[x - 1]);
                }
            }
        }
        self.entries = entries;
        assert(final(self)@ == old(self)@.insert(i as int, (key, diff)));
        proof {
            lemma_diff_of_insert(before, self@, kd.0, kd.1, i as int);
        }
    }
}

/// Where the diff of a changed path comes from.
pub enum DiffSource {
    /// The diff itself, known from the file alone.
    Ready(Diff),
    /// The commands that give its hunks and its counts.
    Commands(GitCommand, GitCommand),
}

/// Where the diff of `key` comes from, given the text of its file, or `None`
/// where the file could not be read as text: such a file is binary; the diff
/// of a file that git does not track is its lines; that of a tracked file
/// comes from git.
pub fn diff_source(key: &DiffKey, content: Option<&str>) -> (s: DiffSource)
    ensures
        content is None ==> (s matches DiffSource::Ready(Diff::Binary)),
        content is Some && key.area == DiffArea::Untracked ==> (s matches DiffSource::Ready(
            Diff::String(d),
        ) && views(d.lines@) == lines(content->0@)),
        content is Some && key.area != DiffArea::Untracked ==> (s matches DiffSource::Commands(
            h,
            n,
        ) && diff_commands(*key) == Some((h, n))),
{
    match content {
        None => DiffSource::Ready(Diff::Binary),
        Some(c) => match key.diff_commands() {
            None => DiffSource::Ready(Diff::untracked(c)),
            Some((h, n)) => DiffSource::Commands(h, n),
        },
    }
}

/// How many log entries one `git log` call asks for.
pub const LOG_MAX_COUNT: usize = 100;

/// What `HEAD` points at.
pub enum Head {
    /// A detached `HEAD`, with the id of the commit when it has one.
    Detached(Option<String>),
    /// The branch checked out.
    Branch(String),
}

/// How the current branch is shown.
pub open spec fn head_label(head: Head) -> Seq<char> {
    match head {
        Head::Detached(Some(id)) => "detached at "@ + id@,
        Head::Detached(None) => "detached"@,
        Head::Branch(name) => name@,
    }
}

/// Whether a branch of that name is listed beside the current one: it is
/// neither the current branch nor `HEAD`.
pub open spec fn listed(name: Seq<char>, current: Seq<char>) -> bool {
    name != current && name != "HEAD"@
}

/// Whether `locals` holds `name`.
pub open spec fn local_named(locals: Seq<Seq<char>>, name: Seq<char>) -> bool {
    exists|i: int| 0 <= i < locals.len() && #[trigger] locals[i] == name
}

/// The branch that a remote-tracking ref names: what follows `remote/` in it.
pub open spec fn remote_branch_name(refname: Seq<char>, remote: Seq<char>) -> Option<Seq<char>> {
    after_first(refname, remote + seq!['/'])
}

/// Whether the `j`-th remote-tracking ref of `refs` names `name`.
pub open spec fn remote_names(refs: Seq<(Seq<char>, Seq<char>)>, j: int, name: Seq<char>) -> bool {
    remote_branch_name(refs[j].0, refs[j].1) == Some(name)
}

/// Whether one of the first `upto` refs of `refs` names `name`.
pub open spec fn remote_named(refs: Seq<(Seq<char>, Seq<char>)>, upto: int, name: Seq<char>) -> bool {
    exists|j: int| 0 <= j < upto && #[trigger] remote_names(refs, j, name)
}

/// `b` is the branch listed for its name: local where a local branch has that
/// name, else the remote of the first ref among the first `upto` that names it.
pub open spec fn branch_fits(
    locals: Seq<Seq<char>>,
    refs: Seq<(Seq<char>, Seq<char>)>,
    upto: int,
    b: Branch,
) -> bool {
    if local_named(locals, b.name@) {
        b.area == BranchArea::Local
    } else {
        exists|j: int|
            0 <= j < upto && #[trigger] remote_names(refs, j, b.name@) && (forall|m: int|
                0 <= m < j ==> !remote_names(refs, m, b.name@)) && (b.area matches BranchArea::Remote(
                r,
            ) && r@ == refs[j].1)
    }
}

/// `other` lists, ordered by name and each name once, the branches named by
/// `locals` and by the first `upto` refs of `refs`, but the current one and
/// `HEAD`; a local branch hides the remote ones of its name, and of these the
/// first ref's wins.
pub open spec fn branches_match(
    current: Seq<char>,
    locals: Seq<Seq<char>>,
    refs: Seq<(Seq<char>, Seq<char>)>,
    upto: int,
    other: Seq<Branch>,
) -> bool {
    &&& names_ascending(other)
    &&& forall|n: Seq<char>|
        #[trigger] has_name(other, n) <==> (listed(n, current) && (local_named(locals, n)
            || remote_named(refs, upto, n)))
    &&& forall|b: Branch| #[trigger] has_branch(other, b) ==> branch_fits(locals, refs, upto, b)
}

/// The text of the pairs of `v`.
pub open spec fn pair_views(v: Seq<(String, String)>) -> Seq<(Seq<char>, Seq<char>)> {
    v.map_values(|x: (String, String)| (x.0@, x.1@))
}

/// The text that `HEAD` shows as the current branch.
fn head_text(head: &Head) -> (s: String)
    ensures
        s@ == head_label(*head),
{
    match head {
        Head::Detached(Some(id)) => {
            let mut s = String::from_str("detached at ");
            s.append(id.as_str());
            s
        },
        Head::Detached(None) => String::from_str("detached"),
        Head::Branch(name) => name.clone(),
    }
}

/// The state of an open repository.
pub struct Repo {
    pub dir: PathBuf,
    pub diffs: Diffs,
    pub branches: Branches,
    pub dated_logs: DatedLogs,
    pub logs_skipped: usize,
}

impl Repo {
    /// Adds `log` to the group of its day.
    pub fn add_log(logs: &mut DatedLogs, log: Log)
        ensures
            dates_descending(final(logs)@),
            groups_non_empty(final(logs)@),
            forall|d: Seq<char>|
                #[trigger] logs_on(final(logs)@, d) == if d == log.short_date@ {
                    logs_on(old(logs)@, d).push(log)
                } else {
                    logs_on(old(logs)@, d)
                },
    {
        logs.add(log);
    }

    /// Adds each of `logs`, in order.
    fn add_logs(dated: &mut DatedLogs, logs: Vec<Log>)
        ensures
            dates_descending(final(dated)@),
            groups_non_empty(final(dated)@),
            forall|d: Seq<char>|
                #[trigger] logs_on(final(dated)@, d) == logs_on(old(dated)@, d) + entries_dated(
                    logs@,
                    d,
                ),
    {
        proof {
            use_type_invariant(&*dated);
        }
        let ghost start = dated@;
        let ghost all = logs@;
        proof {
            assert forall|d: Seq<char>| #[trigger] logs_on(dated@, d) == logs_on(start, d)
                + entries_dated(all.take(0), d) by {
                assert(all.take(0) =~= seq![]);
                assert(logs_on(start, d) + seq![] =~= logs_on(start, d));
            }
        }
        for log in it: logs
            invariant
                it.seq() == all,
                dates_descending(dated@),
                groups_non_empty(dated@),
                forall|d: Seq<char>|
                    #[trigger] logs_on(dated@, d) == logs_on(start, d) + entries_dated(
                        all.take(it.index() as int),
                        d,
                    ),
        {
            let ghost i = it.index();
            let ghost l = log;
            assert(l == all[i as int]);
            Self::add_log(dated, log);
            proof {
                assert(all.take(i + 1).drop_last() =~= all.take(i as int));
                assert(all.take(i + 1).last() == l);
                assert forall|d: Seq<char>| #[trigger] logs_on(dated@, d) == logs_on(start, d)
                    + entries_dated(all.take(i + 1), d) by {
                    if d == l.short_date@ {
                        assert(logs_on(start, d) + entries_dated(all.take(i as int), d).push(l) =~= (
                        logs_on(start, d) + entries_dated(all.take(i as int), d)).push(l));
                    }
                }
            }
        }
        assert(all.take(all.len() as int) =~= all);
    }

    /// The repository at `dir` with the state read from it; `logs` are the
    /// entries of the first `git log` call.
    pub fn from_parts(dir: PathBuf, diffs: Diffs, branches: Branches, logs: Vec<Log>) -> (repo: Repo)
        ensures
            repo.dir == dir,
            repo.diffs == diffs,
            repo.branches == branches,
            repo.logs_skipped == 0,
            dates_descending(repo.dated_logs@),
            groups_non_empty(repo.dated_logs@),
            forall|d: Seq<char>| #[trigger] logs_on(repo.dated_logs@, d) == entries_dated(logs@, d),
    {
        let mut dated_logs = DatedLogs::new();
        proof {
            assert forall|d: Seq<char>| #[trigger] logs_on(dated_logs@, d) == Seq::<Log>::empty() by {}
        }
        Self::add_logs(&mut dated_logs, logs);
        proof {
            assert forall|d: Seq<char>| #[trigger] logs_on(dated_logs@, d) == entries_dated(logs@, d) by {
                assert(Seq::<Log>::empty() + entries_dated(logs@, d) =~= entries_dated(logs@, d));
            }
        }
        Repo { dir, diffs, branches, dated_logs, logs_skipped: 0 }
    }

    /// How many entries to skip in the next `git log` call: those of the first
    /// call and those loaded since.
    pub fn next_logs_skip(&self) -> (skip: usize)
        requires
            self.logs_skipped + LOG_MAX_COUNT <= usize::MAX,
        ensures
            skip == self.logs_skipped + LOG_MAX_COUNT,
    {
        self.logs_skipped + LOG_MAX_COUNT
    }

    /// Adds the entries that one more `git log` call brought.
    pub fn add_loaded_logs(&mut self, logs: Vec<Log>)
        requires
            old(self).logs_skipped + logs.len() <= usize::MAX,
        ensures
            final(self).logs_skipped == old(self).logs_skipped + logs.len(),
            final(self).dir == old(self).dir,
            final(self).diffs == old(self).diffs,
            final(self).branches == old(self).branches,
            dates_descending(final(self).dated_logs@),
            groups_non_empty(final(self).dated_logs@),
            forall|d: Seq<char>|
                #[trigger] logs_on(final(self).dated_logs@, d) == logs_on(old(self).dated_logs@, d)
                    + entries_dated(logs@, d),
    {
        self.logs_skipped = self.logs_skipped + logs.len();
        Self::add_logs(&mut self.dated_logs, logs);
    }

    /// Adds the branch that the `j`-th remote-tracking ref names, unless it is
    /// the current one or `HEAD`, or its name is listed already.
    #[verifier::rlimit(50)]
    fn add_remote_branch(
        other: &mut BranchSet,
        current: &String,
        head_name: &String,
        refname: &String,
        remote: &String,
        Ghost(ls): Ghost<Seq<Seq<char>>>,
        Ghost(refs): Ghost<Seq<(Seq<char>, Seq<char>)>>,
        Ghost(j): Ghost<int>,
    )
        requires
            0 <= j < refs.len(),
            refs[j] == (refname@, remote@),
            head_name@ == "HEAD"@,
            branches_match(current@, ls, refs, j, old(other)@),
        ensures
            branches_match(current@, ls, refs, j + 1, final(other)@),
    {
        let ghost before = other@;
        let mut delimiter = chars_of(remote.as_str());
        delimiter.push('/');
        assert(delimiter@ =~= remote@ + seq!['/']);
        let found = split_once_rest(refname.as_str(), &delimiter);
        assert(option_chars(found) == remote_branch_name(refs[j].0, refs[j].1));
        proof {
            assert forall|n: Seq<char>| #[trigger] remote_named(refs, j + 1, n) <==> (remote_named(
                refs,
                j,
                n,
            ) || remote_names(refs, j, n)) by {
                if remote_named(refs, j + 1, n) {
                    let k = choose|k: int| 0 <= k < j + 1 && #[trigger] remote_names(refs, k, n);
                }
            }
            assert forall|b: Branch| #[trigger] has_branch(before, b) implies branch_fits(
                ls,
                refs,
                j + 1,
                b,
            ) by {
                assert(branch_fits(ls, refs, j, b));
            }
        }
        match found {
            Some(name) => {
                if name != *current && name != *head_name {
                    let area = BranchArea::Remote(remote.clone());
                    let ghost nb = Branch { name: name, area: area };
                    let added = other.insert(Branch { name, area });
                    proof {
                        if added {
                            let p = choose|p: int|
                                0 <= p <= before.len() && other@ == before.insert(p, nb);
                            lemma_branches_inserted(before, nb, p);
                            assert(!local_named(ls, nb.name@));
                            assert(!remote_named(refs, j, nb.name@));
                            assert(remote_names(refs, j, nb.name@));
                            assert(branch_fits(ls, refs, j + 1, nb));
                        }
                    }
                }
            },
            None => {},
        }
    }

    /// The current branch and the others, from what `HEAD` points at, the
    /// names of the local branches and the remote-tracking refs with their
    /// remotes.
    pub fn branches_from(head: &Head, locals: &Vec<String>, remotes: &Vec<(String, String)>) -> (b:
        Branches)
        ensures
            b.current@ == head_label(*head),
            branches_match(
                head_label(*head),
                views(locals@),
                pair_views(remotes@),
                remotes.len() as int,
                b.other@,
            ),
    {
        let current = head_text(head);
        let ghost cur = current@;
        let ghost ls = views(locals@);
        let ghost refs = pair_views(remotes@);
        let head_name = String::from_str("HEAD");
        let mut other = BranchSet::new();
        let mut i: usize = 0;
        while i < locals.len()
            invariant
                i <= locals.len(),
                cur == current@,
                ls == views(locals@),
                head_name@ == "HEAD"@,
                branches_match(cur, ls.take(i as int), refs, 0, other@),
            decreases locals.len() - i,
        {
            let ghost before = other@;
            let ghost prev = ls.take(i as int);
            let ghost next = ls.take(i + 1);
            let name = locals[i].clone();
            proof {
                assert forall|n: Seq<char>| #[trigger] local_named(next, n) <==> (local_named(
                    prev,
                    n,
                ) || n == name@) by {
                    if local_named(next, n) {
                        let k = choose|k: int| 0 <= k < next.len() && #[trigger] next[k] == n;
                        if k < i {
                            assert(prev[k] == n);
                        }
                    }
                    if local_named(prev, n) {
                        let k = choose|k: int| 0 <= k < prev.len() && #[trigger] prev[k] == n;
                        assert(next[k] == n);
                    }
                    if n == name@ {
                        assert(next[i as int] == n);
                    }
                }
            }
            if name != current && name != head_name {
                let ghost nb = Branch { name: name, area: BranchArea::Local };
                let added = other.insert(Branch { name, area: BranchArea::Local });
                proof {
                    if added {
                        let p = choose|p: int|
                            0 <= p <= before.len() && other@ == before.insert(p, nb);
                        lemma_branches_inserted(before, nb, p);
                    }
                    assert forall|b: Branch| #[trigger] has_branch(other@, b) implies branch_fits(
                        next,
                        refs,
                        0,
                        b,
                    ) by {
                        if b != nb {
                            assert(has_branch(before, b));
                            assert(branch_fits(prev, refs, 0, b));
                        }
                    }
                }
            } else {
                proof {
                    assert forall|b: Branch| #[trigger] has_branch(other@, b) implies branch_fits(
                        next,
                        refs,
                        0,
                        b,
                    ) by {
                        assert(branch_fits(prev, refs, 0, b));
                    }
                }
            }
            i = i + 1;
        }
        assert(ls.take(i as int) =~= ls);
        let mut j: usize = 0;
        while j < remotes.len()
            invariant
                j <= remotes.len(),
                cur == current@,
                ls == views(locals@),
                refs == pair_views(remotes@),
                head_name@ == "HEAD"@,
                branches_match(cur, ls, refs, j as int, other@),
            decreases remotes.len() - j,
        {
            assert(refs[j as int] == (remotes@[j as int].0@, remotes@[j as int].1@));
            Self::add_remote_branch(
                &mut other,
                &current,
                &head_name,
                &remotes[j].0,
                &remotes[j].1,
                Ghost(ls),
                Ghost(refs),
                Ghost(j as int),
            );
            j = j + 1;
        }
        Branches { current, other }
    }
}

/// Neither the current branch nor `HEAD` is listed among the others, and a
/// branch that a local one names is listed as local.
pub proof fn lemma_listed_branches(
    current: Seq<char>,
    locals: Seq<Seq<char>>,
    refs: Seq<(Seq<char>, Seq<char>)>,
    upto: int,
    other: Seq<Branch>,
)
    requires
        branches_match(current, locals, refs, upto, other),
    ensures
        !has_name(other, current),
        !has_name(other, "HEAD"@),
        forall|i: int|
            0 <= i < other.len() && local_named(locals, (#[trigger] other[i]).name@)
                ==> other[i].area == BranchArea::Local,
{
    assert forall|i: int|
        0 <= i < other.len() && local_named(locals, (#[trigger] other[i]).name@) implies other[i].area
        == BranchArea::Local by {
        assert(has_branch(other, other[i]));
    }
}

/// Grouping entries by day does not depend on how they were split into
/// calls: the entries of a day among `a + b` are those among `a`, then those
/// among `b`.
pub proof fn lemma_entries_dated_concat(a: Seq<Log>, b: Seq<Log>, date: Seq<char>)
    ensures
        entries_dated(a + b, date) == entries_dated(a, date) + entries_dated(b, date),
    decreases b.len(),
{
    if b.len() == 0 {
        assert(a + b =~= a);
        assert(entries_dated(a, date) + entries_dated(b, date) =~= entries_dated(a, date));
    } else {
        assert((a + b).drop_last() =~= a + b.drop_last());
        lemma_entries_dated_concat(a, b.drop_last(), date);
        if b.last().short_date@ == date {
            assert(entries_dated(a, date) + entries_dated(b.drop_last(), date).push(b.last()) =~= (
            entries_dated(a, date) + entries_dated(b.drop_last(), date)).push(b.last()));
        }
    }
}

} // verus!
