//! The log a peer's monitor keeps: the most recent entries, oldest first.
use vstd::prelude::*;

verus! {

/// Entries beyond this many push the oldest out.
pub const MAX_LOG_ENTRIES: usize = 1000;

/// Severity of a log entry.
#[derive(Clone, Copy, Debug, PartialEq, Eq, Structural)]
pub enum LogLevel {
    Info,
    Warning,
    Error,
    Debug,
}

/// One line of the monitor's log.
#[derive(Clone, Debug)]
pub struct LogEntry {
    pub timestamp: String,
    pub level: LogLevel,
    pub message: String,
}

/// The most recent log entries, at most `MAX_LOG_ENTRIES` of them.
pub struct LogBuffer {
    entries: Vec<LogEntry>,
}

impl View for LogBuffer {
    type V = Seq<LogEntry>;

    closed spec fn view(&self) -> Seq<LogEntry> {
        self.entries@
    }
}

/// The last `MAX_LOG_ENTRIES` entries of `s`.
pub open spec fn most_recent(s: Seq<LogEntry>) -> Seq<LogEntry> {
    if s.len() > MAX_LOG_ENTRIES {
        s.subrange(s.len() - MAX_LOG_ENTRIES, s.len() as int)
    } else {
        s
    }
}

impl LogBuffer {
    pub fn new() -> (r: Self)
        ensures
            r@ == Seq::<LogEntry>::empty(),
    {
        LogBuffer { entries: Vec::new() }
    }

    /// Appends an entry, dropping the oldest ones beyond the limit.
    pub fn add(&mut self, entry: LogEntry)
        requires
            old(self)@.len() <= MAX_LOG_ENTRIES,
        ensures
            final(self)@ == most_recent(old(self)@.push(entry)),
            final(self)@.len() <= MAX_LOG_ENTRIES,
    {
        self.entries.push(entry);
        if self.entries.len() > MAX_LOG_ENTRIES {
            let ghost before = self.entries@;
            self.entries.remove(0);
            assert(self.entries@ =~= before.subrange(
                before.len() - MAX_LOG_ENTRIES,
                before.len() as int,
            ));
        }
    }

    pub fn len(&self) -> (r: usize)
        ensures
            r == self@.len(),
    {
        self.entries.len()
    }

    /// The entry at `i`, the oldest at 0.
    pub fn get(&self, i: usize) -> (r: &LogEntry)
        requires
            i < self@.len(),
        ensures
            *r == self@[i as int],
    {
        &self.entries[i]
    }
}

} // verus!
