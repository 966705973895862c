use vstd::prelude::*;

use crate::config::ProcessConfig;
use crate::error::GuguError;
use crate::text::views;
use crate::text::chars_of;
use crate::text::string_from_chars;
use crate::config::path_extension;
use crate::config::path_file_stem;
use crate::config::path_join;
use crate::config::path_parent;
use crate::config::last_dot;
use crate::config::last_segment;
use crate::config::name_extension;
use crate::config::name_stem;
use crate::config::opt_view;
use crate::config::plain_name;
use crate::config::tidy_path;
use crate::config::clear_parent;
use crate::config::joinable;
use crate::config::joined_with_separator;
use crate::config::parent_part;

verus! {

/// How many lines each of a process's two streams keeps in memory.
pub const MAX_LOG_LINES: usize = 1000;

/// How many log entries a subscriber may fall behind before it loses some.
pub const LOG_BROADCAST_CAPACITY: usize = 256;

// ── Status ────────────────────────────────────────────────────

#[derive(Debug, Clone, PartialEq)]
#[non_exhaustive]
pub enum ProcessStatus {
    Stopped,
    Running,
    Starting,
    Failed(String),
    Restarting,
}

/// How a status is shown to people.
pub open spec fn status_text(s: ProcessStatus) -> Seq<char> {
    match s {
        ProcessStatus::Stopped => "已停止"@,
        ProcessStatus::Running => "运行中"@,
        ProcessStatus::Starting => "启动中"@,
        ProcessStatus::Failed(e) => "失败: "@ + e@,
        ProcessStatus::Restarting => "重启中"@,
    }
}

/// A process counts as running while it is starting or running.
pub open spec fn is_active(s: ProcessStatus) -> bool {
    s is Running || s is Starting
}

impl ProcessStatus {
    pub fn to_string(&self) -> (r: String)
        ensures
            r@ == status_text(*self),
    {
        match self {
            ProcessStatus::Stopped => String::from_str("已停止"),
            ProcessStatus::Running => String::from_str("运行中"),
            ProcessStatus::Starting => String::from_str("启动中"),
            ProcessStatus::Failed(e) => {
                let mut s = String::from_str("失败: ");
                s.append(e.as_str());
                s
            },
            ProcessStatus::Restarting => String::from_str("重启中"),
        }
    }

    /// A copy of the status.
    pub fn duplicate(&self) -> (r: ProcessStatus)
        ensures
            r == *self,
    {
        match self {
            ProcessStatus::Stopped => ProcessStatus::Stopped,
            ProcessStatus::Running => ProcessStatus::Running,
            ProcessStatus::Starting => ProcessStatus::Starting,
            ProcessStatus::Failed(e) => ProcessStatus::Failed(e.clone()),
            ProcessStatus::Restarting => ProcessStatus::Restarting,
        }
    }
}

// ── Log entries ───────────────────────────────────────────────

#[derive(Debug, Clone, Copy, PartialEq, Eq)]
#[non_exhaustive]
pub enum LogStream {
    Stdout,
    Stderr,
}

/// One line that a process wrote.
#[derive(Debug, Clone)]
pub struct LogEntry {
    /// When the line was read, in microseconds since the Unix epoch (UTC).
    pub timestamp: i64,
    pub stream: LogStream,
    pub line: String,
    pub process_name: Option<String>,
}

impl LogEntry {
    /// A copy of the entry.
    pub fn duplicate(&self) -> (r: LogEntry)
        ensures
            r == *self,
    {
        LogEntry {
            timestamp: self.timestamp,
            stream: self.stream,
            line: self.line.clone(),
            process_name: match &self.process_name {
                Some(n) => Some(n.clone()),
                None => None,
            },
        }
    }
}

/// The most recent lines of one stream, oldest first, at most `MAX_LOG_LINES`.
#[derive(Debug)]
pub struct LogBuffer {
    lines: std::collections::VecDeque<LogEntry>,
}

/// The buffer after `e` arrives: it is appended, and the oldest line goes
/// when the buffer was full.
pub open spec fn after_push(lines: Seq<LogEntry>, e: LogEntry) -> Seq<LogEntry> {
    if lines.len() >= MAX_LOG_LINES {
        lines.drop_first().push(e)
    } else {
        lines.push(e)
    }
}

impl LogBuffer {
    pub closed spec fn view(&self) -> Seq<LogEntry> {
        self.lines@
    }

    #[verifier::type_invariant]
    pub open spec fn bounded(&self) -> bool {
        self.view().len() <= MAX_LOG_LINES
    }

    pub fn new() -> (b: Self)
        ensures
            b.view() == Seq::<LogEntry>::empty(),
    {
        LogBuffer { lines: std::collections::VecDeque::new() }
    }

    pub fn len(&self) -> (n: usize)
        ensures
            n == self.view().len(),
            n <= MAX_LOG_LINES,
    {
        proof { use_type_invariant(self); }
        self.lines.len()
    }

    /// Entry `i`, counting from the oldest.
    pub fn get(&self, i: usize) -> (e: &LogEntry)
        requires
            i < self.view().len(),
        ensures
            *e == self.view()[i as int],
    {
        &self.lines[i]
    }

    /// Records a new line, dropping the oldest one when the buffer is full.
    pub fn push(&mut self, e: LogEntry)
        ensures
            final(self).view() == after_push(old(self).view(), e),
    {
        proof { use_type_invariant(&*self); }
        let mut q: std::collections::VecDeque<LogEntry> = std::collections::VecDeque::new();
        std::mem::swap(&mut q, &mut self.lines);
        if q.len() >= MAX_LOG_LINES {
            let _ = q.pop_front();
        }
        q.push_back(e);
        assert(q@ =~= after_push(old(self).view(), e));
        self.lines = q;
    }

    pub fn clear(&mut self)
        ensures
            final(self).view() == Seq::<LogEntry>::empty(),
    {
        self.lines = std::collections::VecDeque::new();
    }
}

/// The lines of both streams in time order; on equal times a stdout line
/// comes before a stderr line, and each stream keeps its own order.
pub open spec fn merged(a: Seq<LogEntry>, b: Seq<LogEntry>) -> Seq<LogEntry>
    decreases a.len() + b.len(),
{
    if a.len() == 0 {
        b
    } else if b.len() == 0 {
        a
    } else if a[0].timestamp <= b[0].timestamp {
        seq![a[0]] + merged(a.drop_first(), b)
    } else {
        seq![b[0]] + merged(a, b.drop_first())
    }
}

proof fn lemma_merged_len(a: Seq<LogEntry>, b: Seq<LogEntry>)
    ensures
        merged(a, b).len() == a.len() + b.len(),
    decreases a.len() + b.len(),
{
    if a.len() > 0 && b.len() > 0 {
        if a[0].timestamp <= b[0].timestamp {
            lemma_merged_len(a.drop_first(), b);
        } else {
            lemma_merged_len(a, b.drop_first());
        }
    }
}

/// `x` may be shown before `y`: it is older, or as old and not a stderr line
/// before a stdout line.
pub open spec fn log_before(x: LogEntry, y: LogEntry) -> bool {
    x.timestamp < y.timestamp || (x.timestamp == y.timestamp && (x.stream == LogStream::Stdout
        || y.stream == LogStream::Stderr))
}

/// Every entry of `s` may be shown before every later one.
pub open spec fn in_log_order(s: Seq<LogEntry>) -> bool {
    forall|i: int, j: int| 0 <= i < j < s.len() ==> log_before(#[trigger] s[i], #[trigger] s[j])
}

/// All entries of `s` come from stream `st`, oldest first.
pub open spec fn one_stream_in_time(s: Seq<LogEntry>, st: LogStream) -> bool {
    &&& forall|i: int| 0 <= i < s.len() ==> (#[trigger] s[i]).stream == st
    &&& forall|i: int, j: int| 0 <= i < j < s.len() ==> (#[trigger] s[i]).timestamp <= (#[trigger] s[j]).timestamp
}

/// The entries of `s` from stream `st`, in the order of `s`.
pub open spec fn entries_of(s: Seq<LogEntry>, st: LogStream) -> Seq<LogEntry>
    decreases s.len(),
{
    if s.len() == 0 {
        s
    } else if s[0].stream == st {
        seq![s[0]] + entries_of(s.drop_first(), st)
    } else {
        entries_of(s.drop_first(), st)
    }
}

/// An entry that may be shown before every entry of both streams may be
/// shown before every entry of their merge.
proof fn lemma_merged_above(a: Seq<LogEntry>, b: Seq<LogEntry>, v: LogEntry)
    requires
        forall|i: int| 0 <= i < a.len() ==> log_before(v, #[trigger] a[i]),
        forall|j: int| 0 <= j < b.len() ==> log_before(v, #[trigger] b[j]),
    ensures
        forall|k: int| 0 <= k < merged(a, b).len() ==> log_before(v, #[trigger] merged(a, b)[k]),
    decreases a.len() + b.len(),
{
    if a.len() > 0 && b.len() > 0 {
        if a[0].timestamp <= b[0].timestamp {
            lemma_merged_above(a.drop_first(), b, v);
            assert forall|k: int| 0 <= k < merged(a, b).len() implies log_before(v, #[trigger] merged(a, b)[k]) by {
                if k > 0 {
                    assert(merged(a, b)[k] == merged(a.drop_first(), b)[k - 1]);
                }
            }
        } else {
            lemma_merged_above(a, b.drop_first(), v);
            assert forall|k: int| 0 <= k < merged(a, b).len() implies log_before(v, #[trigger] merged(a, b)[k]) by {
                if k > 0 {
                    assert(merged(a, b)[k] == merged(a, b.drop_first())[k - 1]);
                }
            }
        }
    }
}

/// Merging a stdout stream and a stderr stream, each oldest first, shows
/// every line no later than the lines after it, and a stdout line before a
/// stderr line of the same time.
pub proof fn lemma_merged_in_log_order(a: Seq<LogEntry>, b: Seq<LogEntry>)
    requires
        one_stream_in_time(a, LogStream::Stdout),
        one_stream_in_time(b, LogStream::Stderr),
    ensures
        in_log_order(merged(a, b)),
    decreases a.len() + b.len(),
{
    lemma_merged_len(a, b);
    if a.len() > 0 && b.len() > 0 {
        let m = merged(a, b);
        if a[0].timestamp <= b[0].timestamp {
            let a1 = a.drop_first();
            assert forall|i: int, j: int| 0 <= i < j < a1.len() implies (#[trigger] a1[i]).timestamp <= (#[trigger] a1[j]).timestamp by {
                assert(a1[i] == a[i + 1] && a1[j] == a[j + 1]);
            }
            assert forall|i: int| 0 <= i < a1.len() implies (#[trigger] a1[i]).stream == LogStream::Stdout by {
                assert(a1[i] == a[i + 1]);
            }
            lemma_merged_in_log_order(a1, b);
            assert forall|i: int| 0 <= i < a1.len() implies log_before(a[0], #[trigger] a1[i]) by {
                assert(a1[i] == a[i + 1]);
            }
            assert forall|j: int| 0 <= j < b.len() implies log_before(a[0], #[trigger] b[j]) by {
                if j > 0 {
                    assert(b[0].timestamp <= b[j].timestamp);
                }
            }
            lemma_merged_above(a1, b, a[0]);
            assert forall|i: int, j: int| 0 <= i < j < m.len() implies log_before(#[trigger] m[i], #[trigger] m[j]) by {
                assert(m[j] == merged(a1, b)[j - 1]);
                if i > 0 {
                    assert(m[i] == merged(a1, b)[i - 1]);
                }
            }
        } else {
            let b1 = b.drop_first();
            assert forall|i: int, j: int| 0 <= i < j < b1.len() implies (#[trigger] b1[i]).timestamp <= (#[trigger] b1[j]).timestamp by {
                assert(b1[i] == b[i + 1] && b1[j] == b[j + 1]);
            }
            assert forall|i: int| 0 <= i < b1.len() implies (#[trigger] b1[i]).stream == LogStream::Stderr by {
                assert(b1[i] == b[i + 1]);
            }
            lemma_merged_in_log_order(a, b1);
            assert forall|i: int| 0 <= i < a.len() implies log_before(b[0], #[trigger] a[i]) by {
                if i > 0 {
                    assert(a[0].timestamp <= a[i].timestamp);
                }
            }
            assert forall|j: int| 0 <= j < b1.len() implies log_before(b[0], #[trigger] b1[j]) by {
                assert(b1[j] == b[j + 1]);
            }
            lemma_merged_above(a, b1, b[0]);
            assert forall|i: int, j: int| 0 <= i < j < m.len() implies log_before(#[trigger] m[i], #[trigger] m[j]) by {
                assert(m[j] == merged(a, b1)[j - 1]);
                if i > 0 {
                    assert(m[i] == merged(a, b1)[i - 1]);
                }
            }
        }
    }
}

proof fn lemma_entries_of_one(s: Seq<LogEntry>, st: LogStream, other: LogStream)
    requires
        st != other,
        forall|i: int| 0 <= i < s.len() ==> (#[trigger] s[i]).stream == st,
    ensures
        entries_of(s, st) == s,
        entries_of(s, other) == Seq::<LogEntry>::empty(),
    decreases s.len(),
{
    if s.len() > 0 {
        let s1 = s.drop_first();
        assert forall|i: int| 0 <= i < s1.len() implies (#[trigger] s1[i]).stream == st by {
            assert(s1[i] == s[i + 1]);
        }
        lemma_entries_of_one(s1, st, other);
        assert(seq![s[0]] + s1 =~= s);
    }
}

/// Merging a stdout stream with a stderr stream keeps each stream whole and
/// in its own order.
pub proof fn lemma_merged_keeps_streams(a: Seq<LogEntry>, b: Seq<LogEntry>)
    requires
        forall|i: int| 0 <= i < a.len() ==> (#[trigger] a[i]).stream == LogStream::Stdout,
        forall|j: int| 0 <= j < b.len() ==> (#[trigger] b[j]).stream == LogStream::Stderr,
    ensures
        entries_of(merged(a, b), LogStream::Stdout) == a,
        entries_of(merged(a, b), LogStream::Stderr) == b,
    decreases a.len() + b.len(),
{
    if a.len() == 0 {
        lemma_entries_of_one(b, LogStream::Stderr, LogStream::Stdout);
    } else if b.len() == 0 {
        lemma_entries_of_one(a, LogStream::Stdout, LogStream::Stderr);
    } else if a[0].timestamp <= b[0].timestamp {
        let a1 = a.drop_first();
        assert forall|i: int| 0 <= i < a1.len() implies (#[trigger] a1[i]).stream == LogStream::Stdout by {
            assert(a1[i] == a[i + 1]);
        }
        lemma_merged_keeps_streams(a1, b);
        let m = merged(a, b);
        assert(m[0] == a[0]);
        assert(m.drop_first() =~= merged(a1, b));
        assert(seq![a[0]] + a1 =~= a);
    } else {
        let b1 = b.drop_first();
        assert forall|j: int| 0 <= j < b1.len() implies (#[trigger] b1[j]).stream == LogStream::Stderr by {
            assert(b1[j] == b[j + 1]);
        }
        lemma_merged_keeps_streams(a, b1);
        let m = merged(a, b);
        assert(m[0] == b[0]);
        assert(m.drop_first() =~= merged(a, b1));
        assert(seq![b[0]] + b1 =~= b);
    }
}

/// The last `lines` entries of the two streams merged in time order (all of
/// them when there are fewer).
pub open spec fn recent(a: Seq<LogEntry>, b: Seq<LogEntry>, lines: nat) -> Seq<LogEntry> {
    let total = a.len() + b.len();
    let take = if lines < total { lines } else { total };
    merged(a, b).skip(total - take)
}

/// The most recent `lines` log lines of a process, oldest first, merged from
/// its stdout and stderr buffers by time.
pub fn recent_logs(stdout: &LogBuffer, stderr: &LogBuffer, lines: usize) -> (r: Vec<LogEntry>)
    ensures
        r@ == recent(stdout.view(), stderr.view(), lines as nat),
        r@.len() == if lines < stdout.view().len() + stderr.view().len() {
            lines as int
        } else {
            (stdout.view().len() + stderr.view().len()) as int
        },
        one_stream_in_time(stdout.view(), LogStream::Stdout) && one_stream_in_time(stderr.view(), LogStream::Stderr)
            ==> in_log_order(r@),
        r@.is_suffix_of(merged(stdout.view(), stderr.view())),
{
    proof {
        let a = stdout.view();
        let b = stderr.view();
        lemma_merged_len(a, b);
        let t = recent(a, b, lines as nat);
        assert(t =~= merged(a, b).subrange(merged(a, b).len() - t.len(), merged(a, b).len() as int));
        if one_stream_in_time(a, LogStream::Stdout) && one_stream_in_time(b, LogStream::Stderr) {
            lemma_merged_in_log_order(a, b);
            let t = recent(a, b, lines as nat);
            let d = merged(a, b).len() - t.len();
            assert(d >= 0);
            assert forall|i: int, j: int| 0 <= i < j < t.len() implies log_before(#[trigger] t[i], #[trigger] t[j]) by {
                assert(t[i] == merged(a, b)[i + d]);
                assert(t[j] == merged(a, b)[j + d]);
            }
        }
    }
    let ghost a = stdout.view();
    let ghost b = stderr.view();
    proof { lemma_merged_len(a, b); }
    let total = stdout.len() + stderr.len();
    if total == 0 {
        assert(merged(a, b) =~= Seq::<LogEntry>::empty());
        return Vec::new();
    }
    let take = if lines < total { lines } else { total };
    let skip = total - take;
    let mut result: Vec<LogEntry> = Vec::new();
    let mut si: usize = 0;
    let mut ei: usize = 0;
    let mut skipped: usize = 0;
    let ghost mut produced: Seq<LogEntry> = Seq::empty();
    assert(a.skip(0) =~= a);
    assert(b.skip(0) =~= b);
    assert(produced + merged(a, b) =~= merged(a, b));
    while (si < stdout.len() || ei < stderr.len()) && result.len() < take
        invariant
            a == stdout.view(),
            b == stderr.view(),
            total == a.len() + b.len(),
            take <= total,
            skip == total - take,
            si <= a.len(),
            ei <= b.len(),
            skipped == si + ei,
            produced.len() == skipped,
            merged(a, b) == produced + merged(a.skip(si as int), b.skip(ei as int)),
            result@ == (if skipped > skip { produced.skip(skip as int) } else { Seq::<LogEntry>::empty() }),
            result@.len() <= take,
            result@.len() == (if skipped > skip { skipped - skip } else { 0 }),
        decreases a.len() + b.len() - si - ei,
    {
        let ghost ra = a.skip(si as int);
        let ghost rb = b.skip(ei as int);
        let entry;
        if si < stdout.len() && ei < stderr.len() {
            let s = stdout.get(si);
            let e = stderr.get(ei);
            assert(ra[0] == a[si as int]);
            assert(rb[0] == b[ei as int]);
            if s.timestamp <= e.timestamp {
                entry = s.duplicate();
                assert(ra.drop_first() =~= a.skip(si + 1));
                si = si + 1;
            } else {
                entry = e.duplicate();
                assert(rb.drop_first() =~= b.skip(ei + 1));
                ei = ei + 1;
            }
        } else if si < stdout.len() {
            entry = stdout.get(si).duplicate();
            assert(ra[0] == a[si as int]);
            assert(rb.len() == 0);
            assert(merged(ra, rb) == ra);
            assert(ra =~= seq![a[si as int]] + a.skip(si + 1));
            assert(merged(a.skip(si + 1), rb) == a.skip(si + 1));
            si = si + 1;
        } else {
            entry = stderr.get(ei).duplicate();
            assert(rb[0] == b[ei as int]);
            assert(ra.len() == 0);
            assert(merged(ra, rb) == rb);
            assert(rb =~= seq![b[ei as int]] + b.skip(ei + 1));
            assert(merged(ra, b.skip(ei + 1)) == b.skip(ei + 1));
            ei = ei + 1;
        }
        let ghost old_produced = produced;
        proof {
            produced = produced.push(entry);
            assert(merged(a, b) =~= produced + merged(a.skip(si as int), b.skip(ei as int)));
        }
        skipped = skipped + 1;
        if skipped > skip {
            result.push(entry);
            proof {
                if skipped - 1 > skip {
                    assert(result@ =~= produced.skip(skip as int));
                } else {
                    assert(result@ =~= produced.skip(skip as int));
                }
            }
        } else {
            assert(result@ =~= Seq::<LogEntry>::empty());
        }
    }
    proof {
        if take > 0 && result@.len() >= take {
            assert(skipped == total);
        }
        if take == 0 {
            assert(merged(a, b).skip(total as int) =~= Seq::<LogEntry>::empty());
            assert(result@ =~= Seq::<LogEntry>::empty());
        } else {
            assert(si == a.len() && ei == b.len());
            assert(a.skip(si as int) =~= Seq::<LogEntry>::empty());
            assert(b.skip(ei as int) =~= Seq::<LogEntry>::empty());
            assert(merged(a, b) =~= produced);
        }
    }
    result
}

// ── Managed process ───────────────────────────────────────────

/// The exact `Duration` of `secs` whole seconds.
pub uninterp spec fn duration_of_secs(secs: u64) -> std::time::Duration;

/// Trusted: calls `std::time::Duration::from_secs`, a function of its
/// argument alone; the contract names its result.
#[verifier::external_body]
fn secs_to_duration(secs: u64) -> (d: std::time::Duration)
    ensures
        d == duration_of_secs(secs),
{
    std::time::Duration::from_secs(secs)
}

/// The current time in microseconds since the Unix epoch (UTC).
///
/// Trusted: calls `chrono::Utc::now` and `DateTime::timestamp_micros`. The
/// clock is read, so nothing is claimed about the value.
#[verifier::external_body]
pub(crate) fn now_micros() -> (t: i64) {
    chrono::Utc::now().timestamp_micros()
}

/// The text that chrono's `format` gives for a UTC timestamp (microseconds
/// since the Unix epoch) under a strftime `pattern`; empty for a timestamp
/// out of chrono's range.
pub uninterp spec fn utc_text(micros: i64, pattern: Seq<char>) -> Seq<char>;

/// Trusted: calls `DateTime::<Utc>::from_timestamp_micros` and formats the
/// result with `DateTime::format`. Both depend on their arguments alone (UTC
/// has no offset), so the contract names the text. Only the patterns used
/// here are admitted: rendering a malformed pattern panics.
#[verifier::external_body]
pub(crate) fn format_utc(micros: i64, pattern: &str) -> (r: String)
    requires
        pattern@ == "%Y-%m-%d %H:%M:%S%.3f"@ || pattern@ == "%H:%M:%S"@,
    ensures
        r@ == utc_text(micros, pattern@),
{
    match chrono::DateTime::<chrono::Utc>::from_timestamp_micros(micros) {
        Some(t) => t.format(pattern).to_string(),
        None => String::new(),
    }
}

/// Whole seconds from `start` to `now` (microsecond timestamps), rounded
/// toward zero.
pub open spec fn whole_seconds_between(start: int, now: int) -> int {
    if now >= start {
        (now - start) / 1_000_000
    } else {
        -((start - now) / 1_000_000)
    }
}

/// The uptime reported at `now` for a process started at `started`, if it
/// was started: the whole seconds in between.
pub open spec fn uptime_at(started: Option<i64>, now: i64) -> Option<i64> {
    match started {
        Some(t) => Some(whole_seconds_between(t as int, now as int) as i64),
        None => None,
    }
}

/// Whole seconds are counted from the start: `s` whole seconds and `us`
/// microseconds after `start`, the count is `s`.
pub proof fn lemma_uptime_counts_seconds(start: int, s: int, us: int)
    requires
        s >= 0,
        0 <= us < 1_000_000,
    ensures
        whole_seconds_between(start, start + s * 1_000_000 + us) == s,
{
    assert((s * 1_000_000 + us) / 1_000_000 == s) by (nonlinear_arith)
        requires
            s >= 0,
            0 <= us < 1_000_000,
    ;
}

/// What the guardian reports about one process.
#[derive(Debug, Clone)]
pub struct ProcessInfo {
    pub name: String,
    pub command: String,
    pub args: Vec<String>,
    pub status: ProcessStatus,
    pub pid: Option<u32>,
    pub restart_count: u32,
    pub auto_start: bool,
    pub auto_restart: bool,
    pub has_health_check: bool,
    pub unhealthy_restart: bool,
    pub healthy: Option<bool>,
    /// When the process was last started, in microseconds since the Unix epoch.
    pub started_at: Option<i64>,
    pub uptime_secs: Option<i64>,
    pub group: Option<String>,
}

/// `i` reports the state of `p`; everything but the uptime, which depends
/// on when the report is made.
pub open spec fn describes(i: ProcessInfo, p: ManagedProcess) -> bool {
    &&& i.name@ == p.name_view()
    &&& i.command@ == p.config_view().command@
    &&& views(i.args@) == views(p.config_view().args@)
    &&& i.status == p.status_view()
    &&& i.pid == p.pid_view()
    &&& i.restart_count == p.crash_count()
    &&& i.auto_start == p.config_view().auto_start
    &&& i.auto_restart == p.config_view().auto_restart
    &&& i.has_health_check == p.config_view().health_check is Some
    &&& i.unhealthy_restart == p.config_view().unhealthy_restart
    &&& i.healthy == p.healthy_view()
    &&& i.started_at == p.started_view()
    &&& match (i.group, p.config_view().group) {
        (None, None) => true,
        (Some(a), Some(b)) => a@ == b@,
        _ => false,
    }
}

/// The state of a managed process, field by field.
pub struct ProcessRecord {
    pub name: Seq<char>,
    pub config: ProcessConfig,
    pub status: ProcessStatus,
    pub crash_count: u32,
    pub healthy: Option<bool>,
    pub started_at: Option<i64>,
    pub pid: Option<u32>,
    pub last_check: Option<u64>,
}

/// The state that the guardian keeps for one configured process. The child
/// process itself and its output readers are held by the caller; what they
/// observe is reported back through the methods below.
#[derive(Debug)]
pub struct ManagedProcess {
    name: String,
    config: ProcessConfig,
    status: ProcessStatus,
    crash_restart_count: u32,
    healthy: Option<bool>,
    started_at: Option<i64>,
    pid: Option<u32>,
    last_health_check: Option<u64>,
}

impl ManagedProcess {
    pub closed spec fn name_view(&self) -> Seq<char> {
        self.name@
    }

    pub closed spec fn config_view(&self) -> ProcessConfig {
        self.config
    }

    pub closed spec fn status_view(&self) -> ProcessStatus {
        self.status
    }

    pub closed spec fn crash_count(&self) -> u32 {
        self.crash_restart_count
    }

    pub closed spec fn healthy_view(&self) -> Option<bool> {
        self.healthy
    }

    pub closed spec fn started_view(&self) -> Option<i64> {
        self.started_at
    }

    pub closed spec fn pid_view(&self) -> Option<u32> {
        self.pid
    }

    pub closed spec fn last_check_view(&self) -> Option<u64> {
        self.last_health_check
    }

    /// All of the process's state at once.
    pub open spec fn record(&self) -> ProcessRecord {
        ProcessRecord {
            name: self.name_view(),
            config: self.config_view(),
            status: self.status_view(),
            crash_count: self.crash_count(),
            healthy: self.healthy_view(),
            started_at: self.started_view(),
            pid: self.pid_view(),
            last_check: self.last_check_view(),
        }
    }

    /// Everything but the fields named by the caller is as in `other`.
    pub open spec fn same_except_status(&self, other: &Self) -> bool {
        &&& self.name_view() == other.name_view()
        &&& self.config_view() == other.config_view()
        &&& self.crash_count() == other.crash_count()
        &&& self.healthy_view() == other.healthy_view()
        &&& self.started_view() == other.started_view()
        &&& self.last_check_view() == other.last_check_view()
    }

    /// A stopped process that has never crashed or been checked.
    pub fn new(name: String, config: ProcessConfig) -> (p: Self)
        ensures
            p.name_view() == name@,
            p.config_view() == config,
            p.status_view() == ProcessStatus::Stopped,
            p.crash_count() == 0,
            p.healthy_view() is None,
            p.started_view() is None,
            p.pid_view() is None,
            p.last_check_view() is None,
    {
        ManagedProcess {
            name,
            config,
            status: ProcessStatus::Stopped,
            crash_restart_count: 0,
            healthy: None,
            started_at: None,
            pid: None,
            last_health_check: None,
        }
    }

    pub fn name(&self) -> (r: &str)
        ensures
            r@ == self.name_view(),
    {
        self.name.as_str()
    }

    pub fn config(&self) -> (r: &ProcessConfig)
        ensures
            *r == self.config_view(),
    {
        &self.config
    }

    /// Replaces the configuration; nothing else changes.
    pub fn set_config(&mut self, config: ProcessConfig)
        ensures
            final(self).config_view() == config,
            final(self).name_view() == old(self).name_view(),
            final(self).status_view() == old(self).status_view(),
            final(self).crash_count() == old(self).crash_count(),
            final(self).healthy_view() == old(self).healthy_view(),
            final(self).started_view() == old(self).started_view(),
            final(self).pid_view() == old(self).pid_view(),
            final(self).last_check_view() == old(self).last_check_view(),
    {
        self.config = config;
    }

    /// Gives the process a new name; nothing else changes.
    pub fn rename(&mut self, new_name: String)
        ensures
            final(self).name_view() == new_name@,
            final(self).config_view() == old(self).config_view(),
            final(self).status_view() == old(self).status_view(),
            final(self).crash_count() == old(self).crash_count(),
            final(self).healthy_view() == old(self).healthy_view(),
            final(self).started_view() == old(self).started_view(),
            final(self).pid_view() == old(self).pid_view(),
            final(self).last_check_view() == old(self).last_check_view(),
    {
        self.name = new_name;
    }

    pub fn status(&self) -> (r: &ProcessStatus)
        ensures
            *r == self.status_view(),
    {
        &self.status
    }

    pub fn pid(&self) -> (r: Option<u32>)
        ensures
            r == self.pid_view(),
    {
        self.pid
    }

    pub fn healthy(&self) -> (r: Option<bool>)
        ensures
            r == self.healthy_view(),
    {
        self.healthy
    }

    pub fn started_at(&self) -> (r: Option<i64>)
        ensures
            r == self.started_view(),
    {
        self.started_at
    }

    pub fn crash_restart_count(&self) -> (r: u32)
        ensures
            r == self.crash_count(),
    {
        self.crash_restart_count
    }

    /// Running or starting.
    pub fn is_running(&self) -> (r: bool)
        ensures
            r == is_active(self.status_view()),
    {
        match self.status {
            ProcessStatus::Running | ProcessStatus::Starting => true,
            _ => false,
        }
    }

    /// Whether a crash may still be answered with a restart: automatic
    /// restarts are enabled and fewer than `max_restarts` have happened since
    /// the last reset.
    pub fn should_auto_restart(&self) -> (r: bool)
        ensures
            r == (self.config_view().auto_restart && self.crash_count() < self.config_view().max_restarts),
    {
        self.config.auto_restart && self.crash_restart_count < self.config.max_restarts
    }

    /// How long to wait before restarting.
    pub fn restart_delay(&self) -> (d: std::time::Duration)
        ensures
            d == duration_of_secs(self.config_view().restart_delay_secs),
    {
        secs_to_duration(self.config.restart_delay_secs)
    }

    pub fn reset_crash_restart_count(&mut self)
        ensures
            final(self).crash_count() == 0,
            final(self).name_view() == old(self).name_view(),
            final(self).config_view() == old(self).config_view(),
            final(self).status_view() == old(self).status_view(),
            final(self).healthy_view() == old(self).healthy_view(),
            final(self).started_view() == old(self).started_view(),
            final(self).pid_view() == old(self).pid_view(),
            final(self).last_check_view() == old(self).last_check_view(),
    {
        self.crash_restart_count = 0;
    }

    pub fn mark_crash_restart(&mut self)
        requires
            old(self).crash_count() < u32::MAX,
        ensures
            final(self).crash_count() == old(self).crash_count() + 1,
            final(self).name_view() == old(self).name_view(),
            final(self).config_view() == old(self).config_view(),
            final(self).status_view() == old(self).status_view(),
            final(self).healthy_view() == old(self).healthy_view(),
            final(self).started_view() == old(self).started_view(),
            final(self).pid_view() == old(self).pid_view(),
            final(self).last_check_view() == old(self).last_check_view(),
    {
        self.crash_restart_count = self.crash_restart_count + 1;
    }

    pub fn set_status(&mut self, status: ProcessStatus)
        ensures
            final(self).status_view() == status,
            final(self).same_except_status(&*old(self)),
            final(self).pid_view() == old(self).pid_view(),
    {
        self.status = status;
    }

    pub fn set_healthy(&mut self, healthy: Option<bool>)
        ensures
            final(self).healthy_view() == healthy,
            final(self).name_view() == old(self).name_view(),
            final(self).config_view() == old(self).config_view(),
            final(self).status_view() == old(self).status_view(),
            final(self).crash_count() == old(self).crash_count(),
            final(self).started_view() == old(self).started_view(),
            final(self).pid_view() == old(self).pid_view(),
            final(self).last_check_view() == old(self).last_check_view(),
    {
        self.healthy = healthy;
    }

    /// When the last health check was made, in milliseconds of the caller's
    /// monotonic clock.
    pub fn last_health_check(&self) -> (r: Option<u64>)
        ensures
            r == self.last_check_view(),
    {
        self.last_health_check
    }

    pub fn set_last_health_check(&mut self, at: Option<u64>)
        ensures
            final(self).last_check_view() == at,
            final(self).name_view() == old(self).name_view(),
            final(self).config_view() == old(self).config_view(),
            final(self).status_view() == old(self).status_view(),
            final(self).crash_count() == old(self).crash_count(),
            final(self).healthy_view() == old(self).healthy_view(),
            final(self).started_view() == old(self).started_view(),
            final(self).pid_view() == old(self).pid_view(),
    {
        self.last_health_check = at;
    }

    // ── Lifecycle ──

    /// The first half of a start: refused while the process runs, otherwise
    /// the process is marked as starting.
    pub fn begin_start(&mut self) -> (r: Result<(), GuguError>)
        ensures
            is_active(old(self).status_view()) ==> {
                &&& r matches Err(GuguError::AlreadyRunning(n)) && n@ == old(self).name_view()
                &&& *final(self) == *old(self)
            },
            !is_active(old(self).status_view()) ==> {
                &&& r is Ok
                &&& final(self).status_view() == ProcessStatus::Starting
                &&& final(self).same_except_status(&*old(self))
                &&& final(self).pid_view() == old(self).pid_view()
            },
    {
        if self.is_running() {
            return Err(GuguError::AlreadyRunning(self.name.clone()));
        }
        self.status = ProcessStatus::Starting;
        Ok(())
    }

    /// The child was spawned at time `now` (microseconds) with the given pid.
    pub fn finish_start(&mut self, pid: Option<u32>, now: i64)
        ensures
            final(self).status_view() == ProcessStatus::Running,
            final(self).started_view() == Some(now),
            final(self).pid_view() == pid,
            final(self).last_check_view() is None,
            final(self).name_view() == old(self).name_view(),
            final(self).config_view() == old(self).config_view(),
            final(self).crash_count() == old(self).crash_count(),
            final(self).healthy_view() == old(self).healthy_view(),
    {
        self.pid = pid;
        self.started_at = Some(now);
        self.status = ProcessStatus::Running;
        self.last_health_check = None;
    }

    /// The child could not be spawned; `reason` says why.
    pub fn fail_start(&mut self, reason: String) -> (e: GuguError)
        ensures
            final(self).status_view() == ProcessStatus::Failed(reason),
            final(self).same_except_status(&*old(self)),
            final(self).pid_view() == old(self).pid_view(),
            e matches GuguError::StartFailed(n, m) && n@ == old(self).name_view() && m@ == reason@,
    {
        let e = GuguError::StartFailed(self.name.clone(), reason.clone());
        self.status = ProcessStatus::Failed(reason);
        e
    }

    /// Whether a stop may proceed: only a running process can be stopped.
    pub fn check_can_stop(&self) -> (r: Result<(), GuguError>)
        ensures
            is_active(self.status_view()) <==> r is Ok,
            r matches Err(e) ==> e matches GuguError::NotRunning(n) && n@ == self.name_view(),
    {
        if !self.is_running() {
            return Err(GuguError::NotRunning(self.name.clone()));
        }
        Ok(())
    }

    /// The child is gone, whether it was stopped or exited by itself.
    pub fn mark_stopped(&mut self)
        ensures
            final(self).status_view() == ProcessStatus::Stopped,
            final(self).pid_view() is None,
            final(self).same_except_status(&*old(self)),
    {
        self.pid = None;
        self.status = ProcessStatus::Stopped;
    }

    /// The state of the child could not be queried.
    pub fn mark_unknown_exit(&mut self)
        ensures
            final(self).status_view() matches ProcessStatus::Failed(m) && m@ == "检查进程状态失败"@,
            final(self).pid_view() is None,
            final(self).same_except_status(&*old(self)),
    {
        self.pid = None;
        self.status = ProcessStatus::Failed(String::from_str("检查进程状态失败"));
    }

    /// A crash (or a failed health check) is answered: when the restart
    /// budget allows, the process is marked as restarting and one more crash
    /// restart is counted, and `true` tells the caller to start it again.
    pub fn schedule_crash_restart(&mut self) -> (r: bool)
        ensures
            r == (old(self).config_view().auto_restart && old(self).crash_count() < old(self).config_view().max_restarts),
            r ==> final(self).status_view() == ProcessStatus::Restarting
                && final(self).crash_count() == old(self).crash_count() + 1,
            !r ==> *final(self) == *old(self),
            final(self).name_view() == old(self).name_view(),
            final(self).config_view() == old(self).config_view(),
            final(self).healthy_view() == old(self).healthy_view(),
            final(self).started_view() == old(self).started_view(),
            final(self).pid_view() == old(self).pid_view(),
            final(self).last_check_view() == old(self).last_check_view(),
    {
        if self.should_auto_restart() {
            self.status = ProcessStatus::Restarting;
            self.crash_restart_count = self.crash_restart_count + 1;
            true
        } else {
            false
        }
    }

    /// The report on this process at time `now` (microseconds).
    pub fn info_at(&self, now: i64) -> (i: ProcessInfo)
        ensures
            describes(i, *self),
            i.uptime_secs == (match self.started_view() {
                Some(t) => Some(whole_seconds_between(t as int, now as int) as i64),
                None => None::<i64>,
            }),
    {
        let uptime = match self.started_at {
            Some(t) => {
                let secs: i64 = if now >= t {
                    let d: i128 = now as i128 - t as i128;
                    (d / 1_000_000) as i64
                } else {
                    let d: i128 = t as i128 - now as i128;
                    -((d / 1_000_000) as i64)
                };
                Some(secs)
            },
            None => None,
        };
        let args = self.config.args.clone();
        proof {
            assert(views(args@) =~= views(self.config.args@));
        }
        ProcessInfo {
            name: self.name.clone(),
            command: self.config.command.clone(),
            args,
            status: self.status.duplicate(),
            pid: self.pid,
            restart_count: self.crash_restart_count,
            auto_start: self.config.auto_start,
            auto_restart: self.config.auto_restart,
            has_health_check: self.config.health_check.is_some(),
            unhealthy_restart: self.config.unhealthy_restart,
            healthy: self.healthy,
            started_at: self.started_at,
            uptime_secs: uptime,
            group: match &self.config.group {
                Some(g) => Some(g.clone()),
                None => None,
            },
        }
    }

    /// The report on this process now.
    pub fn info(&self) -> (i: ProcessInfo)
        ensures
            describes(i, *self),
            i.uptime_secs is Some <==> self.started_view() is Some,
            exists|now: i64| i.uptime_secs == #[trigger] uptime_at(self.started_view(), now),
    {
        let now = now_micros();
        let r = self.info_at(now);
        assert(r.uptime_secs == uptime_at(self.started_view(), now));
        r
    }
}


// ── Reading and keeping output ────────────────────────────────

/// `s` without the run of `c` at its end.
pub open spec fn without_trailing(s: Seq<char>, c: char) -> Seq<char>
    decreases s.len(),
{
    if s.len() > 0 && s.last() == c {
        without_trailing(s.drop_last(), c)
    } else {
        s
    }
}

fn drop_trailing(cs: &Vec<char>, end: usize, c: char) -> (r: usize)
    requires
        end <= cs@.len(),
    ensures
        r <= end,
        cs@.take(r as int) == without_trailing(cs@.take(end as int), c),
{
    let mut k = end;
    while k > 0 && cs[k - 1] == c
        invariant
            k <= end <= cs@.len(),
            without_trailing(cs@.take(end as int), c) == without_trailing(cs@.take(k as int), c),
        decreases k,
    {
        assert(cs@.take(k as int).drop_last() =~= cs@.take(k - 1));
        k = k - 1;
    }
    proof {
        if k > 0 {
            assert(cs@.take(k as int).last() == cs@[k - 1]);
        }
    }
    k
}

/// A line read from a child without its line ending: the trailing `\n`s,
/// then the trailing `\r`s, are dropped.
pub fn trim_line_ending(line: &str) -> (r: String)
    ensures
        r@ == without_trailing(without_trailing(line@, '\n'), '\r'),
{
    let cs = chars_of(line);
    assert(cs@.take(cs@.len() as int) =~= line@);
    let a = drop_trailing(&cs, cs.len(), '\n');
    let b = drop_trailing(&cs, a, '\r');
    let mut out: Vec<char> = Vec::new();
    let mut k: usize = 0;
    while k < b
        invariant
            b <= cs@.len(),
            k <= b,
            out@ == cs@.take(k as int),
        decreases b - k,
    {
        out.push(cs[k]);
        assert(cs@.take(k + 1) =~= cs@.take(k as int).push(cs@[k as int]));
        k = k + 1;
    }
    string_from_chars(out.as_slice())
}

/// How many lines are written between two looks at the size of a log file.
pub const ROTATION_CHECK_LINES: u32 = 256;

/// The size in bytes beyond which a log file is rotated; 0 means never.
pub fn rotation_limit(max_log_size_mb: Option<u64>) -> (r: u64)
    requires
        match max_log_size_mb {
            Some(mb) => mb * 1024 * 1024 <= u64::MAX,
            None => true,
        },
    ensures
        r == match max_log_size_mb {
            Some(mb) => mb * 1024 * 1024,
            None => 0,
        },
{
    match max_log_size_mb {
        Some(mb) => mb * 1024 * 1024,
        None => 0,
    }
}

/// Whether the size of the log file is looked at after the `line_count`-th
/// line: only when rotation is on, and every `ROTATION_CHECK_LINES` lines.
pub fn rotation_check_due(limit: u64, line_count: u32) -> (r: bool)
    ensures
        r == (limit > 0 && line_count % ROTATION_CHECK_LINES == 0),
{
    limit > 0 && line_count % ROTATION_CHECK_LINES == 0
}

/// The name of the `n`-th older copy of a log file with stem `stem` and
/// extension `ext`: `stem.n.ext`, or `stem.n` without an extension.
pub fn rotated_file_name(stem: &str, ext: Option<&str>, n: u32) -> (r: String)
    ensures
        r@ == stem@ + "."@ + crate::text::decimal(n as nat) + match ext {
            Some(e) => "."@ + e@,
            None => Seq::empty(),
        },
{
    let mut r = String::from_str(stem);
    r.append(".");
    crate::text::push_decimal(&mut r, n as u64);
    if let Some(e) = ext {
        r.append(".");
        r.append(e);
    }
    r
}

/// The file name of the `n`-th older copy of a log file named `name`:
/// `stem.n.ext`, or `stem.n` when the name has no extension.
pub open spec fn rotated_name(name: Seq<char>, n: nat) -> Seq<char> {
    name_stem(name) + seq!['.'] + crate::text::decimal(n) + match name_extension(name) {
        Some(e) => seq!['.'] + e,
        None => Seq::empty(),
    }
}

proof fn lemma_decimal_digits(n: nat)
    ensures
        crate::text::decimal(n).len() > 0,
        forall|i: int|
            0 <= i < crate::text::decimal(n).len() ==> '0' <= #[trigger] crate::text::decimal(n)[i]
                && crate::text::decimal(n)[i] <= '9',
    decreases n,
{
    if n >= 10 {
        lemma_decimal_digits(n / 10);
    }
}

proof fn lemma_last_dot_range(s: Seq<char>)
    ensures
        -1 <= last_dot(s) < s.len(),
    decreases s.len(),
{
    if s.len() > 0 {
        lemma_last_dot_range(s.drop_last());
    }
}

/// The rotated name of a plain file name is a plain file name.
proof fn lemma_rotated_name_plain(name: Seq<char>, n: nat)
    requires
        plain_name(name),
    ensures
        plain_name(rotated_name(name, n)),
{
    lemma_decimal_digits(n);
    lemma_last_dot_range(name);
    let stem = name_stem(name);
    let d = crate::text::decimal(n);
    let r = rotated_name(name, n);
    assert forall|i: int| 0 <= i < stem.len() implies stem[i] == name[i] by {}
    assert(r[stem.len() + 1int] == d[0]);
    assert forall|i: int| 0 <= i < r.len() implies !crate::config::path_separator(#[trigger] r[i])
        && r[i] != ':' by {
        if i < stem.len() {
            assert(r[i] == name[i]);
        } else if i == stem.len() {
        } else if i < stem.len() + 1 + d.len() {
            assert(r[i] == d[i - stem.len() - 1]);
        } else if i == stem.len() + 1 + d.len() {
        } else {
            let k = last_dot(name);
            assert(r[i] == name[k + 1 + (i - stem.len() - 2 - d.len())]);
        }
    }
}

/// The path of the `n`-th older copy of the log file `path`, next to it.
pub fn rotated_log_path(path: &str, n: u32) -> (r: String)
    ensures
        tidy_path(path@) ==> rotated_name(last_segment(path@), n as nat).is_suffix_of(r@),
        clear_parent(path@) && joinable(parent_part(path@)) ==> joined_with_separator(
            r@,
            parent_part(path@),
            rotated_name(last_segment(path@), n as nat),
        ),
{
    let stem = match path_file_stem(path) {
        Some(s) => s,
        None => String::new(),
    };
    let ext = path_extension(path);
    let parent = match path_parent(path) {
        Some(p) => p,
        None => String::from_str("."),
    };
    let name = match &ext {
        Some(e) => rotated_file_name(stem.as_str(), Some(e.as_str()), n),
        None => rotated_file_name(stem.as_str(), None, n),
    };
    proof {
        if tidy_path(path@) {
            reveal_strlit(".");
            assert(opt_view(ext) == name_extension(last_segment(path@)));
            assert(name@ =~= rotated_name(last_segment(path@), n as nat));
            lemma_rotated_name_plain(last_segment(path@), n as nat);
        }
    }
    path_join(parent.as_str(), name.as_str())
}

/// How many older copies of a log file are kept.
pub const KEPT_ROTATIONS: u32 = 5;

/// The renames of a rotation, oldest first: copy `i` becomes copy `i + 1`
/// for `i` from `KEPT_ROTATIONS` down to 1; the live file (copy 0) then
/// becomes copy 1.
pub fn rotation_steps() -> (r: Vec<(u32, u32)>)
    ensures
        r@.len() == KEPT_ROTATIONS + 1,
        forall|k: int| 0 <= k < r@.len() ==> #[trigger] r@[k] == ((KEPT_ROTATIONS - k) as u32, (KEPT_ROTATIONS - k + 1) as u32),
{
    let mut r: Vec<(u32, u32)> = Vec::new();
    for k in 0..KEPT_ROTATIONS + 1
        invariant
            r@.len() == k,
            forall|j: int| 0 <= j < r@.len() ==> #[trigger] r@[j] == ((KEPT_ROTATIONS - j) as u32, (KEPT_ROTATIONS - j + 1) as u32),
    {
        r.push((KEPT_ROTATIONS - k, KEPT_ROTATIONS - k + 1));
    }
    r
}

} // verus!
