//! A debug log of a run: levelled entries kept in memory, and their text.

use vstd::prelude::*;

use crate::text::{decimal, decimal_string, push_char, push_str};

verus! {

/// Severity of a log entry, from least to most severe.
#[derive(Debug, Clone, Copy, PartialEq, Eq, Structural, PartialOrd, Ord, Hash)]
pub enum LogLevel {
    Trace,
    Debug,
    Info,
    Warn,
    Error,
}

/// The rank of a level: 0 for `Trace` up to 4 for `Error`.
pub open spec fn level_rank(l: LogLevel) -> nat {
    match l {
        LogLevel::Trace => 0,
        LogLevel::Debug => 1,
        LogLevel::Info => 2,
        LogLevel::Warn => 3,
        LogLevel::Error => 4,
    }
}

/// The levels from least to most severe.
pub open spec fn levels_by_severity() -> Seq<LogLevel> {
    seq![LogLevel::Trace, LogLevel::Debug, LogLevel::Info, LogLevel::Warn, LogLevel::Error]
}

/// Ranks follow severity: of two levels, the one that comes later in
/// `Trace, Debug, Info, Warn, Error` ranks higher.  So a logger at a
/// threshold records exactly the messages whose level is the threshold
/// or comes after it.
pub proof fn lemma_rank_follows_severity()
    ensures
        forall|i: int, j: int|
            0 <= i < 5 && 0 <= j < 5 ==> (level_rank(#[trigger] levels_by_severity()[i]) < level_rank(
                #[trigger] levels_by_severity()[j],
            ) <==> i < j),
        forall|l: LogLevel| levels_by_severity().contains(l),
{
    let s = levels_by_severity();
    assert(s[0] == LogLevel::Trace && s[1] == LogLevel::Debug && s[2] == LogLevel::Info && s[3] == LogLevel::Warn
        && s[4] == LogLevel::Error);
    assert forall|l: LogLevel| s.contains(l) by {
        match l {
            LogLevel::Trace => assert(s[0] == l),
            LogLevel::Debug => assert(s[1] == l),
            LogLevel::Info => assert(s[2] == l),
            LogLevel::Warn => assert(s[3] == l),
            LogLevel::Error => assert(s[4] == l),
        }
    };
}

/// The five-character label of a level.
pub open spec fn level_label(l: LogLevel) -> Seq<char> {
    match l {
        LogLevel::Trace => "TRACE"@,
        LogLevel::Debug => "DEBUG"@,
        LogLevel::Info => "INFO "@,
        LogLevel::Warn => "WARN "@,
        LogLevel::Error => "ERROR"@,
    }
}

impl LogLevel {
    /// The rank of this level: 0 for `Trace` up to 4 for `Error`.
    pub fn rank(&self) -> (r: u8)
        ensures
            r == level_rank(*self),
    {
        match self {
            LogLevel::Trace => 0,
            LogLevel::Debug => 1,
            LogLevel::Info => 2,
            LogLevel::Warn => 3,
            LogLevel::Error => 4,
        }
    }

    /// The five-character label of this level, as log lines show it.
    pub fn label(&self) -> (s: &'static str)
        ensures
            s@ == level_label(*self),
    {
        proof {
            reveal_strlit("TRACE");
            reveal_strlit("DEBUG");
            reveal_strlit("INFO ");
            reveal_strlit("WARN ");
            reveal_strlit("ERROR");
        }
        match self {
            LogLevel::Trace => "TRACE",
            LogLevel::Debug => "DEBUG",
            LogLevel::Info => "INFO ",
            LogLevel::Warn => "WARN ",
            LogLevel::Error => "ERROR",
        }
    }
}

/// `s` padded on the left with `c` to at least `width` characters.
pub open spec fn pad_left(s: Seq<char>, width: nat, c: char) -> Seq<char> {
    if s.len() >= width {
        s
    } else {
        Seq::new((width - s.len()) as nat, |i: int| c) + s
    }
}

/// One log entry.
pub struct LogEntry {
    pub level: LogLevel,
    pub component: String,
    pub message: String,
    pub worker_id: Option<usize>,
    pub task_id: Option<usize>,
}

/// The line of an entry, `secs` and `millis` after the log started:
/// `[  SSS.mmm] [LEVEL] [Ww] [Tt] [component] message`, the worker and
/// task parts only when known.
pub open spec fn entry_line(e: LogEntry, secs: nat, millis: nat) -> Seq<char> {
    "["@ + pad_left(decimal(secs), 5, ' ') + "."@ + pad_left(decimal(millis), 3, '0') + "] ["@
        + level_label(e.level) + "]"@
        + match e.worker_id { Some(w) => " [W"@ + decimal(w as nat) + "]"@, None => Seq::<char>::empty() }
        + match e.task_id { Some(t) => " [T"@ + decimal(t as nat) + "]"@, None => Seq::<char>::empty() }
        + " ["@ + e.component@ + "] "@ + e.message@
}

/// Appends `t` padded on the left with `c` to `width` characters.
fn push_padded(s: &mut String, t: &str, width: usize, c: char)
    ensures
        final(s)@ == old(s)@ + pad_left(t@, width as nat, c),
{
    let len = t.unicode_len();
    if len < width {
        let mut k: usize = 0;
        let ghost s0 = s@;
        while k < width - len
            invariant
                len < width,
                0 <= k <= width - len,
                s@ == s0 + Seq::new(k as nat, |i: int| c),
            decreases width - len - k,
        {
            push_char(s, c);
            proof {
                assert(s@ =~= s0 + Seq::new((k + 1) as nat, |i: int| c));
            }
            k = k + 1;
        }
    }
    push_str(s, t);
    proof {
        if t@.len() < width {
            assert(s@ =~= old(s)@ + pad_left(t@, width as nat, c));
        }
    }
}

impl LogEntry {
    /// A copy of the entry.
    pub fn duplicate(&self) -> (e: LogEntry)
        ensures
            e.level == self.level,
            e.component@ == self.component@,
            e.message@ == self.message@,
            e.worker_id == self.worker_id,
            e.task_id == self.task_id,
    {
        LogEntry {
            level: self.level,
            component: self.component.clone(),
            message: self.message.clone(),
            worker_id: self.worker_id,
            task_id: self.task_id,
        }
    }

    /// The entry's line, `secs` seconds and `millis` milliseconds after the
    /// log started.
    pub fn render(&self, secs: usize, millis: usize) -> (s: String)
        ensures
            s@ == entry_line(*self, secs as nat, millis as nat),
    {
        let mut s = String::new();
        push_str(&mut s, "[");
        let secs_text = decimal_string(secs);
        push_padded(&mut s, secs_text.as_str(), 5, ' ');
        push_str(&mut s, ".");
        let millis_text = decimal_string(millis);
        push_padded(&mut s, millis_text.as_str(), 3, '0');
        push_str(&mut s, "] [");
        push_str(&mut s, self.level.label());
        push_str(&mut s, "]");
        let ghost before_worker = s@;
        match self.worker_id {
            Some(w) => {
                push_str(&mut s, " [W");
                let w_text = decimal_string(w);
                push_str(&mut s, w_text.as_str());
                push_str(&mut s, "]");
            },
            None => {},
        }
        let ghost before_task = s@;
        match self.task_id {
            Some(t) => {
                push_str(&mut s, " [T");
                let t_text = decimal_string(t);
                push_str(&mut s, t_text.as_str());
                push_str(&mut s, "]");
            },
            None => {},
        }
        let ghost after_task = s@;
        push_str(&mut s, " [");
        push_str(&mut s, self.component.as_str());
        push_str(&mut s, "] ");
        push_str(&mut s, self.message.as_str());
        proof {
            assert(before_task =~= before_worker + match self.worker_id {
                Some(w) => " [W"@ + decimal(w as nat) + "]"@,
                None => Seq::<char>::empty(),
            });
            assert(after_task =~= before_task + match self.task_id {
                Some(t) => " [T"@ + decimal(t as nat) + "]"@,
                None => Seq::<char>::empty(),
            });
            assert(s@ =~= entry_line(*self, secs as nat, millis as nat));
        }
        s
    }
}

/// The text of a log: each entry's line followed by a line break.
pub open spec fn log_text(entries: Seq<LogEntry>, secs: nat, millis: nat) -> Seq<char>
    decreases entries.len(),
{
    if entries.len() == 0 {
        Seq::empty()
    } else {
        log_text(entries.drop_last(), secs, millis) + entry_line(entries.last(), secs, millis) + "\n"@
    }
}

/// Entries carry the same information.
pub open spec fn same_entry(a: LogEntry, b: LogEntry) -> bool {
    &&& a.level == b.level
    &&& a.component@ == b.component@
    &&& a.message@ == b.message@
    &&& a.worker_id == b.worker_id
    &&& a.task_id == b.task_id
}

/// A log that keeps the entries at or above a level while it is enabled.
pub struct DebugLogger {
    enabled: bool,
    log_level: LogLevel,
    logs: Vec<LogEntry>,
}

impl DebugLogger {
    /// Whether entries are recorded.
    pub closed spec fn enabled_flag(&self) -> bool {
        self.enabled
    }

    /// The least level recorded.
    pub closed spec fn threshold(&self) -> LogLevel {
        self.log_level
    }

    /// The entries recorded, oldest first.
    pub closed spec fn entries(&self) -> Seq<LogEntry> {
        self.logs@
    }

    /// A disabled logger with level `Info` and no entries.
    pub fn new() -> (l: Self)
        ensures
            !l.enabled_flag(),
            l.threshold() == LogLevel::Info,
            l.entries().len() == 0,
    {
        DebugLogger { enabled: false, log_level: LogLevel::Info, logs: Vec::new() }
    }

    /// Starts recording.
    pub fn enable(&mut self)
        ensures
            final(self).enabled_flag(),
            final(self).threshold() == old(self).threshold(),
            final(self).entries() == old(self).entries(),
    {
        self.enabled = true;
    }

    /// Stops recording.
    pub fn disable(&mut self)
        ensures
            !final(self).enabled_flag(),
            final(self).threshold() == old(self).threshold(),
            final(self).entries() == old(self).entries(),
    {
        self.enabled = false;
    }

    /// Sets the least level recorded.
    pub fn set_log_level(&mut self, level: LogLevel)
        ensures
            final(self).enabled_flag() == old(self).enabled_flag(),
            final(self).threshold() == level,
            final(self).entries() == old(self).entries(),
    {
        self.log_level = level;
    }

    /// Whether entries are recorded.
    pub fn is_enabled(&self) -> (b: bool)
        ensures
            b == self.enabled_flag(),
    {
        self.enabled
    }

    /// Records an entry when the log is enabled and `level` is at least the
    /// log's level; returns whether it did.
    pub fn log(
        &mut self,
        level: LogLevel,
        component: &str,
        message: &str,
        worker_id: Option<usize>,
        task_id: Option<usize>,
    ) -> (recorded: bool)
        ensures
            recorded == (old(self).enabled_flag() && level_rank(level) >= level_rank(old(self).threshold())),
            final(self).enabled_flag() == old(self).enabled_flag(),
            final(self).threshold() == old(self).threshold(),
            recorded ==> final(self).entries().len() == old(self).entries().len() + 1
                && final(self).entries().drop_last() == old(self).entries()
                && final(self).entries().last().level == level
                && final(self).entries().last().component@ == component@
                && final(self).entries().last().message@ == message@
                && final(self).entries().last().worker_id == worker_id
                && final(self).entries().last().task_id == task_id,
            !recorded ==> final(self).entries() == old(self).entries(),
    {
        if !self.enabled {
            return false;
        }
        if level.rank() < self.log_level.rank() {
            return false;
        }
        let entry = LogEntry {
            level,
            component: String::from_str(component),
            message: String::from_str(message),
            worker_id,
            task_id,
        };
        self.logs.push(entry);
        proof {
            assert(self.logs@.drop_last() =~= old(self).logs@);
        }
        true
    }

    /// Records a `Trace` entry, as `log` does.
    pub fn trace(&mut self, component: &str, message: &str) -> (recorded: bool)
        ensures
            recorded == (old(self).enabled_flag() && level_rank(LogLevel::Trace) >= level_rank(old(self).threshold())),
            final(self).enabled_flag() == old(self).enabled_flag(),
            final(self).threshold() == old(self).threshold(),
            recorded ==> final(self).entries().drop_last() == old(self).entries()
                && final(self).entries().len() == old(self).entries().len() + 1
                && final(self).entries().last().level == LogLevel::Trace
                && final(self).entries().last().component@ == component@
                && final(self).entries().last().message@ == message@
                && final(self).entries().last().worker_id is None
                && final(self).entries().last().task_id is None,
            !recorded ==> final(self).entries() == old(self).entries(),
    {
        self.log(LogLevel::Trace, component, message, None, None)
    }

    /// Records a `Debug` entry, as `log` does.
    pub fn debug(&mut self, component: &str, message: &str) -> (recorded: bool)
        ensures
            recorded == (old(self).enabled_flag() && level_rank(LogLevel::Debug) >= level_rank(old(self).threshold())),
            final(self).enabled_flag() == old(self).enabled_flag(),
            final(self).threshold() == old(self).threshold(),
            recorded ==> final(self).entries().drop_last() == old(self).entries()
                && final(self).entries().len() == old(self).entries().len() + 1
                && final(self).entries().last().level == LogLevel::Debug
                && final(self).entries().last().component@ == component@
                && final(self).entries().last().message@ == message@
                && final(self).entries().last().worker_id is None
                && final(self).entries().last().task_id is None,
            !recorded ==> final(self).entries() == old(self).entries(),
    {
        self.log(LogLevel::Debug, component, message, None, None)
    }

    /// Records an `Info` entry, as `log` does.
    pub fn info(&mut self, component: &str, message: &str) -> (recorded: bool)
        ensures
            recorded == (old(self).enabled_flag() && level_rank(LogLevel::Info) >= level_rank(old(self).threshold())),
            final(self).enabled_flag() == old(self).enabled_flag(),
            final(self).threshold() == old(self).threshold(),
            recorded ==> final(self).entries().drop_last() == old(self).entries()
                && final(self).entries().len() == old(self).entries().len() + 1
                && final(self).entries().last().level == LogLevel::Info
                && final(self).entries().last().component@ == component@
                && final(self).entries().last().message@ == message@
                && final(self).entries().last().worker_id is None
                && final(self).entries().last().task_id is None,
            !recorded ==> final(self).entries() == old(self).entries(),
    {
        self.log(LogLevel::Info, component, message, None, None)
    }

    /// Records a `Warn` entry, as `log` does.
    pub fn warn(&mut self, component: &str, message: &str) -> (recorded: bool)
        ensures
            recorded == (old(self).enabled_flag() && level_rank(LogLevel::Warn) >= level_rank(old(self).threshold())),
            final(self).enabled_flag() == old(self).enabled_flag(),
            final(self).threshold() == old(self).threshold(),
            recorded ==> final(self).entries().drop_last() == old(self).entries()
                && final(self).entries().len() == old(self).entries().len() + 1
                && final(self).entries().last().level == LogLevel::Warn
                && final(self).entries().last().component@ == component@
                && final(self).entries().last().message@ == message@
                && final(self).entries().last().worker_id is None
                && final(self).entries().last().task_id is None,
            !recorded ==> final(self).entries() == old(self).entries(),
    {
        self.log(LogLevel::Warn, component, message, None, None)
    }

    /// Records an `Error` entry, as `log` does.
    pub fn error(&mut self, component: &str, message: &str) -> (recorded: bool)
        ensures
            recorded == (old(self).enabled_flag() && level_rank(LogLevel::Error) >= level_rank(old(self).threshold())),
            final(self).enabled_flag() == old(self).enabled_flag(),
            final(self).threshold() == old(self).threshold(),
            recorded ==> final(self).entries().drop_last() == old(self).entries()
                && final(self).entries().len() == old(self).entries().len() + 1
                && final(self).entries().last().level == LogLevel::Error
                && final(self).entries().last().component@ == component@
                && final(self).entries().last().message@ == message@
                && final(self).entries().last().worker_id is None
                && final(self).entries().last().task_id is None,
            !recorded ==> final(self).entries() == old(self).entries(),
    {
        self.log(LogLevel::Error, component, message, None, None)
    }

    /// Copies of the recorded entries, oldest first.
    pub fn get_logs(&self) -> (v: Vec<LogEntry>)
        ensures
            v@.len() == self.entries().len(),
            forall|i: int| 0 <= i < v@.len() ==> #[trigger] same_entry(v@[i], self.entries()[i]),
    {
        let mut v: Vec<LogEntry> = Vec::new();
        let mut i: usize = 0;
        while i < self.logs.len()
            invariant
                0 <= i <= self.logs@.len(),
                v@.len() == i,
                forall|j: int| 0 <= j < i ==> #[trigger] same_entry(v@[j], self.logs@[j]),
            decreases self.logs@.len() - i,
        {
            v.push(self.logs[i].duplicate());
            i = i + 1;
        }
        v
    }

    /// Forgets every entry.
    pub fn clear(&mut self)
        ensures
            final(self).enabled_flag() == old(self).enabled_flag(),
            final(self).threshold() == old(self).threshold(),
            final(self).entries().len() == 0,
    {
        self.logs.clear();
    }

    /// The text of the log, `secs` seconds and `millis` milliseconds after
    /// it started: one line per entry.
    pub fn export_logs(&self, secs: usize, millis: usize) -> (s: String)
        ensures
            s@ == log_text(self.entries(), secs as nat, millis as nat),
    {
        let mut s = String::new();
        let mut i: usize = 0;
        while i < self.logs.len()
            invariant
                0 <= i <= self.logs@.len(),
                s@ == log_text(self.logs@.subrange(0, i as int), secs as nat, millis as nat),
            decreases self.logs@.len() - i,
        {
            let line = self.logs[i].render(secs, millis);
            push_str(&mut s, line.as_str());
            push_str(&mut s, "\n");
            proof {
                let sub = self.logs@.subrange(0, i as int + 1);
                assert(sub.drop_last() =~= self.logs@.subrange(0, i as int));
            }
            i = i + 1;
        }
        proof {
            assert(self.logs@.subrange(0, self.logs@.len() as int) =~= self.logs@);
        }
        s
    }
}

impl Default for DebugLogger {
    fn default() -> (l: Self)
        ensures
            !l.enabled_flag(),
            l.threshold() == LogLevel::Info,
            l.entries().len() == 0,
    {
        Self::new()
    }
}

} // verus!
