//! The messages this program logs about itself, the newest first.
use crate::config::unix_seconds_now;
use crate::text::{starts_with, trim, trimmed};
use std::collections::VecDeque;
use vstd::prelude::*;

verus! {

/// How serious a message is, from `Error`, the most, to `Trace`, the least.
#[derive(Clone, Copy, Debug, PartialEq, Eq, Structural)]
pub enum Level {
    Error,
    Warn,
    Info,
    Debug,
    Trace,
}

/// The rank of a level: 1 for `Error` up to 5 for `Trace`.
pub open spec fn level_rank(level: Level) -> int {
    match level {
        Level::Error => 1,
        Level::Warn => 2,
        Level::Info => 3,
        Level::Debug => 4,
        Level::Trace => 5,
    }
}

/// How a level is written.
pub open spec fn level_name(level: Level) -> Seq<char> {
    match level {
        Level::Error => "ERROR"@,
        Level::Warn => "WARN"@,
        Level::Info => "INFO"@,
        Level::Debug => "DEBUG"@,
        Level::Trace => "TRACE"@,
    }
}

impl Level {
    /// How the level is written.
    pub fn name(&self) -> (s: &'static str)
        ensures
            s@ == level_name(*self),
    {
        match self {
            Level::Error => "ERROR",
            Level::Warn => "WARN",
            Level::Info => "INFO",
            Level::Debug => "DEBUG",
            Level::Trace => "TRACE",
        }
    }
}

/// The digit `d`, for `d < 10`.
pub open spec fn digit(d: nat) -> char {
    if d == 0 {
        '0'
    } else if d == 1 {
        '1'
    } else if d == 2 {
        '2'
    } else if d == 3 {
        '3'
    } else if d == 4 {
        '4'
    } else if d == 5 {
        '5'
    } else if d == 6 {
        '6'
    } else if d == 7 {
        '7'
    } else if d == 8 {
        '8'
    } else {
        '9'
    }
}

/// `n` written in decimal, without leading zeros.
pub open spec fn decimal(n: nat) -> Seq<char>
    decreases n,
{
    if n < 10 {
        seq![digit(n)]
    } else {
        decimal(n / 10).push(digit(n % 10))
    }
}

/// The digit `d`, for `d < 10`.
fn digit_char(d: u64) -> (c: char)
    requires
        d < 10,
    ensures
        c == digit(d as nat),
{
    if d == 0 {
        '0'
    } else if d == 1 {
        '1'
    } else if d == 2 {
        '2'
    } else if d == 3 {
        '3'
    } else if d == 4 {
        '4'
    } else if d == 5 {
        '5'
    } else if d == 6 {
        '6'
    } else if d == 7 {
        '7'
    } else if d == 8 {
        '8'
    } else {
        '9'
    }
}

/// Appends `n`, written in decimal.
pub fn push_decimal(s: &mut String, n: u64)
    ensures
        final(s)@ == old(s)@ + decimal(n as nat),
    decreases n,
{
    if n >= 10 {
        push_decimal(s, n / 10);
    }
    s.push(digit_char(n % 10));
    assert(final(s)@ =~= old(s)@ + decimal(n as nat));
}

/// One logged message: when, in seconds since the Unix epoch, and how serious.
#[derive(Debug)]
pub struct Entry {
    pub level: Level,
    pub time: u64,
    pub message: String,
}

/// How an entry is shown: `[time LEVEL] message`.
pub open spec fn entry_text(time: u64, level: Level, message: Seq<char>) -> Seq<char> {
    seq!['['] + decimal(time as nat) + seq![' '] + level_name(level) + seq![']', ' '] + message
}

impl Entry {
    /// The entry `message`, logged at `time` with `level`.
    pub fn new(time: u64, level: Level, message: String) -> (e: Self)
        ensures
            e.time == time,
            e.level == level,
            e.message == message,
    {
        Entry { level, time, message }
    }

    /// The entry as it is shown.
    pub fn to_string(&self) -> (s: String)
        ensures
            s@ == entry_text(self.time, self.level, self.message@),
    {
        let mut s = String::new();
        s.push('[');
        push_decimal(&mut s, self.time);
        s.push(' ');
        s.append(self.level.name());
        s.push(']');
        s.push(' ');
        s.append(self.message.as_str());
        assert(s@ =~= entry_text(self.time, self.level, self.message@));
        s
    }
}

/// Whether messages of `level` from the module `target` are kept: those from
/// this program's own modules, up to `Info`.
pub open spec fn is_enabled(level: Level, target: Seq<char>) -> bool {
    level_rank(level) <= 3 && "guit::"@.is_prefix_of(target)
}

/// The log of this program.
pub struct Logger {
    entries: VecDeque<Entry>,
}

impl View for Logger {
    type V = Seq<Entry>;

    closed spec fn view(&self) -> Seq<Entry> {
        self.entries@
    }
}

impl Logger {
    /// An empty log.
    pub fn new() -> (l: Self)
        ensures
            l@ == Seq::<Entry>::empty(),
    {
        Logger { entries: VecDeque::new() }
    }

    /// The entries, the newest first.
    pub fn read(&self) -> (e: &VecDeque<Entry>)
        ensures
            e@ == self@,
    {
        &self.entries
    }

    /// Forgets every entry.
    pub fn clear(&mut self)
        ensures
            final(self)@ == Seq::<Entry>::empty(),
    {
        self.entries.clear();
    }

    /// Whether messages of `level` from the module `target` are kept.
    pub fn enabled(&self, level: Level, target: &str) -> (b: bool)
        ensures
            b == is_enabled(level, target@),
    {
        let own = "guit::";
        let serious = match level {
            Level::Error | Level::Warn | Level::Info => true,
            Level::Debug | Level::Trace => false,
        };
        serious && starts_with(target, own)
    }

    /// Keeps `message`, trimmed, as the newest entry, stamped with the time
    /// now, unless its level or module is not kept or it holds only
    /// whitespace. Returns whether it was kept.
    pub fn log(&mut self, level: Level, target: &str, message: &str) -> (kept: bool)
        ensures
            kept == (is_enabled(level, target@) && trim(message@).len() > 0),
            kept ==> final(self)@.len() == old(self)@.len() + 1 && final(self)@.drop_first()
                == old(self)@ && final(self)@[0].level == level && final(self)@[0].message@
                == trim(message@),
            !kept ==> final(self)@ == old(self)@,
    {
        if !self.enabled(level, target) {
            return false;
        }
        let time = unix_seconds_now();
        self.log_at(level, target, message, time)
    }

    /// Keeps `message`, trimmed, as the newest entry, stamped with `time`,
    /// unless its level or module is not kept or it holds only whitespace.
    /// Returns whether it was kept.
    pub fn log_at(&mut self, level: Level, target: &str, message: &str, time: u64) -> (kept: bool)
        ensures
            kept == (is_enabled(level, target@) && trim(message@).len() > 0),
            kept ==> final(self)@.len() == old(self)@.len() + 1 && final(self)@.drop_first()
                == old(self)@ && final(self)@[0].level == level && final(self)@[0].message@
                == trim(message@) && final(self)@[0].time == time,
            !kept ==> final(self)@ == old(self)@,
    {
        if !self.enabled(level, target) {
            return false;
        }
        let text = trimmed(message);
        if text.as_str().is_empty() {
            return false;
        }
        let ghost before = self@;
        self.entries.push_front(Entry { level, time, message: text });
        assert(self@.drop_first() =~= before);
        true
    }
}

} // verus!
