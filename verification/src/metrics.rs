use vstd::prelude::*;

use crate::api::count_status;
use crate::api::failed_status;
use crate::api::running_status;
use crate::api::stopped_status;
use crate::process::ProcessInfo;
use crate::process::ProcessStatus;
use crate::api::contains_text;
use crate::text::views;

verus! {

// ── What the gauges should read ───────────────────────────────

/// The number a status is exported as.
pub open spec fn status_value(s: ProcessStatus) -> i64 {
    match s {
        ProcessStatus::Stopped => 0,
        ProcessStatus::Running => 1,
        ProcessStatus::Starting => 2,
        ProcessStatus::Restarting => 3,
        ProcessStatus::Failed(_) => 4,
    }
}

/// The gauges of one process.
pub struct GaugeRow {
    pub name: String,
    pub status: i64,
    pub restarts: i64,
    pub uptime: i64,
    /// 1 when healthy, 0 when not; `None` leaves the health gauge as it was.
    pub health: Option<i64>,
}

/// What one refresh of the gauges does.
pub struct MetricsUpdate {
    /// Processes that were exported before and are gone now.
    pub stale: Vec<String>,
    pub rows: Vec<GaugeRow>,
    pub total: i64,
    pub running: i64,
    pub stopped: i64,
    pub failed: i64,
}

/// The names of `processes`.
pub open spec fn info_names(ps: Seq<ProcessInfo>) -> Seq<Seq<char>> {
    ps.map_values(|p: ProcessInfo| p.name@)
}

/// The names of `prev` that `current` no longer holds, in the order of `prev`.
pub open spec fn stale_names(prev: Seq<Seq<char>>, current: Seq<Seq<char>>) -> Seq<Seq<char>>
    decreases prev.len(),
{
    if prev.len() == 0 {
        Seq::empty()
    } else if current.contains(prev.last()) {
        stale_names(prev.drop_last(), current)
    } else {
        stale_names(prev.drop_last(), current).push(prev.last())
    }
}

/// `row` holds the gauges of `p`.
pub open spec fn row_of(row: GaugeRow, p: ProcessInfo) -> bool {
    &&& row.name@ == p.name@
    &&& row.status == status_value(p.status)
    &&& row.restarts == p.restart_count as i64
    &&& row.uptime == match p.uptime_secs {
        Some(u) => u,
        None => 0,
    }
    &&& row.health == match p.healthy {
        Some(true) => Some(1i64),
        Some(false) => Some(0i64),
        None => None::<i64>,
    }
}

fn gauge_row(p: &ProcessInfo) -> (r: GaugeRow)
    ensures
        row_of(r, *p),
{
    let status: i64 = match &p.status {
        ProcessStatus::Stopped => 0,
        ProcessStatus::Running => 1,
        ProcessStatus::Starting => 2,
        ProcessStatus::Restarting => 3,
        ProcessStatus::Failed(_) => 4,
    };
    let uptime: i64 = match p.uptime_secs {
        Some(u) => u,
        None => 0,
    };
    let health: Option<i64> = match p.healthy {
        Some(true) => Some(1),
        Some(false) => Some(0),
        None => None,
    };
    GaugeRow { name: p.name.clone(), status, restarts: p.restart_count as i64, uptime, health }
}

proof fn lemma_count_bound(ps: Seq<ProcessInfo>, pred: spec_fn(ProcessStatus) -> bool)
    ensures
        count_status(ps, pred) <= ps.len(),
    decreases ps.len(),
{
    if ps.len() > 0 {
        lemma_count_bound(ps.drop_last(), pred);
    }
}

/// The names of `processes`, in order.
fn process_names(processes: &[ProcessInfo]) -> (r: Vec<String>)
    ensures
        views(r@) == info_names(processes@),
{
    let n = processes.len();
    let mut names: Vec<String> = Vec::new();
    for i in 0..n
        invariant
            n == processes@.len(),
            views(names@) == info_names(processes@.take(i as int)),
    {
        let ghost before = names@;
        let nm = processes[i].name.clone();
        assert(nm@ == processes@[i as int].name@);
        names.push(nm);
        assert(views(names@) =~= views(before).push(processes@[i as int].name@));
        assert(info_names(processes@.take(i + 1)) =~= info_names(processes@.take(i as int)).push(processes@[i as int].name@));
    }
    assert(processes@.take(n as int) =~= processes@);
    names
}

/// Works out one refresh of the gauges from the names exported last time
/// and the current processes.
pub fn plan_metrics(prev_names: &Vec<String>, processes: &[ProcessInfo]) -> (r: MetricsUpdate)
    requires
        processes@.len() <= i64::MAX,
    ensures
        views(r.stale@) == stale_names(views(prev_names@), info_names(processes@)),
        r.rows@.len() == processes@.len(),
        forall|i: int| 0 <= i < processes@.len() ==> row_of(#[trigger] r.rows@[i], processes@[i]),
        r.total == processes@.len(),
        r.running == count_status(processes@, |s: ProcessStatus| running_status(s)),
        r.stopped == count_status(processes@, |s: ProcessStatus| stopped_status(s)),
        r.failed == count_status(processes@, |s: ProcessStatus| failed_status(s)),
{
    let n = processes.len();
    let current = process_names(processes);
    let mut stale: Vec<String> = Vec::new();
    let m = prev_names.len();
    for i in 0..m
        invariant
            m == prev_names@.len(),
            views(current@) == info_names(processes@),
            views(stale@) == stale_names(views(prev_names@).take(i as int), info_names(processes@)),
    {
        assert(views(prev_names@).take(i + 1).drop_last() =~= views(prev_names@).take(i as int));
        assert(views(prev_names@).take(i + 1).last() == prev_names@[i as int]@);
        if !contains_text(&current, prev_names[i].as_str()) {
            let ghost before = stale@;
            stale.push(prev_names[i].clone());
            assert(views(stale@) =~= views(before).push(prev_names@[i as int]@));
        }
    }
    assert(views(prev_names@).take(m as int) =~= views(prev_names@));
    let ghost run = |s: ProcessStatus| running_status(s);
    let ghost stop = |s: ProcessStatus| stopped_status(s);
    let ghost fail = |s: ProcessStatus| failed_status(s);
    let mut rows: Vec<GaugeRow> = Vec::new();
    let mut running: i64 = 0;
    let mut stopped: i64 = 0;
    let mut failed: i64 = 0;
    for i in 0..n
        invariant
            n == processes@.len(),
            n <= i64::MAX,
            run == (|s: ProcessStatus| running_status(s)),
            stop == (|s: ProcessStatus| stopped_status(s)),
            fail == (|s: ProcessStatus| failed_status(s)),
            rows@.len() == i,
            forall|k: int| 0 <= k < i ==> row_of(#[trigger] rows@[k], processes@[k]),
            running == count_status(processes@.take(i as int), run),
            stopped == count_status(processes@.take(i as int), stop),
            failed == count_status(processes@.take(i as int), fail),
    {
        proof {
            lemma_count_bound(processes@.take(i as int), run);
            lemma_count_bound(processes@.take(i as int), stop);
            lemma_count_bound(processes@.take(i as int), fail);
        }
        assert(processes@.take(i + 1).drop_last() =~= processes@.take(i as int));
        assert(processes@.take(i + 1).last() == processes@[i as int]);
        let p = &processes[i];
        rows.push(gauge_row(p));
        let st = &p.status;
        if let ProcessStatus::Running = st {
            running = running + 1;
        }
        if let ProcessStatus::Stopped = st {
            stopped = stopped + 1;
        }
        if let ProcessStatus::Failed(_) = st {
            failed = failed + 1;
        }
    }
    assert(processes@.take(n as int) =~= processes@);
    MetricsUpdate { stale, rows, total: n as i64, running, stopped, failed }
}


// ── Exported gauges ───────────────────────────────────────────

#[verifier::external_type_specification]
#[verifier::external_body]
pub struct ExPrometheusError(prometheus::Error);

/// A character that may begin a metric name: an ASCII letter, `_` or `:`.
pub open spec fn metric_name_head(c: char) -> bool {
    ('a' <= c && c <= 'z') || ('A' <= c && c <= 'Z') || c == '_' || c == ':'
}

/// A name that prometheus accepts for a metric: `[a-zA-Z_:][a-zA-Z0-9_:]*`.
pub open spec fn is_metric_name(s: Seq<char>) -> bool {
    &&& s.len() > 0
    &&& metric_name_head(s[0])
    &&& forall|i: int|
        1 <= i < s.len() ==> metric_name_head(#[trigger] s[i]) || ('0' <= s[i] && s[i] <= '9')
}

/// The series of a gauge family, as prometheus files them: under a key
/// computed from the label value, each with its label value and its reading.
pub type Series = Map<u64, (Seq<char>, i64)>;

/// A registry together with the gauges and gauge families registered in it.
///
/// A prometheus gauge shares its value with the registry by handle, so the
/// registry and its gauges are kept together behind this type and changed
/// only through the trusted functions below, which keep `gauges` and
/// `families` in the order of registration.
#[verifier::external_body]
pub struct Board {
    registry: prometheus::Registry,
    gauges: Vec<prometheus::IntGauge>,
    families: Vec<prometheus::IntGaugeVec>,
}

/// The gauges registered on `b`, in the order of registration: name, help
/// text and reading.
pub uninterp spec fn board_gauges(b: Board) -> Seq<(Seq<char>, Seq<char>, i64)>;

/// The gauge families registered on `b`, in the order of registration: name,
/// help text and series.
pub uninterp spec fn board_families(b: Board) -> Seq<(Seq<char>, Seq<char>, Series)>;

/// The key under which a gauge family files the series of label value
/// `label` (prometheus hashes the value with FNV-1a).
pub uninterp spec fn label_key(label: Seq<char>) -> u64;

/// The identity of the descriptor of a metric named `name` without extra
/// labels (prometheus hashes the name with FNV-1a); a registry refuses a
/// second descriptor with the same identity.
pub uninterp spec fn descriptor_key(name: Seq<char>) -> u64;

/// The text exposition format of a registry that holds `gauges` and
/// `families`.
pub uninterp spec fn exposition(
    gauges: Seq<(Seq<char>, Seq<char>, i64)>,
    families: Seq<(Seq<char>, Seq<char>, Series)>,
) -> Seq<char>;

/// `m` after the series for `label` is set to `v`: a series already filed
/// under the label's key keeps its label value.
pub open spec fn put_series(m: Series, label: Seq<char>, v: i64) -> Series {
    let k = label_key(label);
    m.insert(k, (if m.contains_key(k) { m[k].0 } else { label }, v))
}

/// Trusted: `prometheus::Registry::new`; nothing is registered yet.
#[verifier::external_body]
fn new_board() -> (b: Board)
    ensures
        board_gauges(b) == Seq::<(Seq<char>, Seq<char>, i64)>::empty(),
        board_families(b) == Seq::<(Seq<char>, Seq<char>, Series)>::empty(),
{
    Board { registry: prometheus::Registry::new(), gauges: Vec::new(), families: Vec::new() }
}

/// Trusted: `prometheus::IntGauge::new`, then `Registry::register` of a
/// handle to it. Claimed, as the source shows (`Desc::new`, and
/// `RegistryCore::register` for a collector of one descriptor): the gauge is
/// made and registered, reading 0, exactly when the name is a valid metric
/// name, the help text is not empty and no registered descriptor has the
/// same identity; otherwise nothing registered changes.
#[verifier::external_body]
fn add_gauge(b: &mut Board, name: &str, help: &str) -> (r: Result<(), prometheus::Error>)
    ensures
        r is Ok <==> (is_metric_name(name@) && help@.len() > 0 && (forall|i: int|
            0 <= i < board_gauges(*old(b)).len() ==> descriptor_key(#[trigger] board_gauges(*old(b))[i].0)
                != descriptor_key(name@)) && (forall|i: int|
            0 <= i < board_families(*old(b)).len() ==> descriptor_key(#[trigger] board_families(*old(b))[i].0)
                != descriptor_key(name@))),
        r is Ok ==> board_gauges(*final(b)) == board_gauges(*old(b)).push((name@, help@, 0i64)),
        r is Err ==> board_gauges(*final(b)) == board_gauges(*old(b)),
        board_families(*final(b)) == board_families(*old(b)),
{
    let g = prometheus::IntGauge::new(name, help)?;
    b.registry.register(Box::new(g.clone()))?;
    b.gauges.push(g);
    Ok(())
}

/// Trusted: `prometheus::IntGaugeVec::new` with the one label `process`, then
/// `Registry::register` of a handle to it. Claimed, as the source shows: the
/// family is made and registered, without series, exactly when the name is a
/// valid metric name, the help text is not empty and no registered descriptor
/// has the same identity; otherwise nothing registered changes.
#[verifier::external_body]
fn add_family(b: &mut Board, name: &str, help: &str) -> (r: Result<(), prometheus::Error>)
    ensures
        r is Ok <==> (is_metric_name(name@) && help@.len() > 0 && (forall|i: int|
            0 <= i < board_gauges(*old(b)).len() ==> descriptor_key(#[trigger] board_gauges(*old(b))[i].0)
                != descriptor_key(name@)) && (forall|i: int|
            0 <= i < board_families(*old(b)).len() ==> descriptor_key(#[trigger] board_families(*old(b))[i].0)
                != descriptor_key(name@))),
        r is Ok ==> board_families(*final(b)) == board_families(*old(b)).push(
            (name@, help@, Map::<u64, (Seq<char>, i64)>::empty()),
        ),
        r is Err ==> board_families(*final(b)) == board_families(*old(b)),
        board_gauges(*final(b)) == board_gauges(*old(b)),
{
    let f = prometheus::IntGaugeVec::new(prometheus::Opts::new(name, help), &["process"])?;
    b.registry.register(Box::new(f.clone()))?;
    b.families.push(f);
    Ok(())
}

/// Trusted: `IntGauge::set` on the `i`-th gauge.
#[verifier::external_body]
fn set_gauge(b: &mut Board, i: usize, v: i64)
    requires
        i < board_gauges(*old(b)).len(),
    ensures
        board_gauges(*final(b)) == board_gauges(*old(b)).update(
            i as int,
            (board_gauges(*old(b))[i as int].0, board_gauges(*old(b))[i as int].1, v),
        ),
        board_families(*final(b)) == board_families(*old(b)),
{
    b.gauges[i].set(v)
}

/// Trusted: `IntGaugeVec::with_label_values` on the `i`-th family with one
/// label value (the family has exactly one label, so this does not panic),
/// then `set` on the gauge it gives: the series filed under the label's key
/// is made if missing, and reads `v`.
#[verifier::external_body]
fn set_member(b: &mut Board, i: usize, label: &str, v: i64)
    requires
        i < board_families(*old(b)).len(),
    ensures
        board_families(*final(b)) == board_families(*old(b)).update(
            i as int,
            (
                board_families(*old(b))[i as int].0,
                board_families(*old(b))[i as int].1,
                put_series(board_families(*old(b))[i as int].2, label@, v),
            ),
        ),
        board_gauges(*final(b)) == board_gauges(*old(b)),
{
    b.families[i].with_label_values(&[label]).set(v)
}

/// Trusted: `IntGaugeVec::remove_label_values` on the `i`-th family: the
/// series filed under the label's key is dropped; a missing one is reported
/// as an error, which is of no interest here.
#[verifier::external_body]
fn remove_member(b: &mut Board, i: usize, label: &str)
    requires
        i < board_families(*old(b)).len(),
    ensures
        board_families(*final(b)) == board_families(*old(b)).update(
            i as int,
            (
                board_families(*old(b))[i as int].0,
                board_families(*old(b))[i as int].1,
                board_families(*old(b))[i as int].2.remove(label_key(label@)),
            ),
        ),
        board_gauges(*final(b)) == board_gauges(*old(b)),
{
    let _ = b.families[i].remove_label_values(&[label]);
}

/// Trusted: `Registry::gather`, encoded with `TextEncoder::encode`. The text
/// depends only on what is registered (families are written in the order of
/// their names, series in the order of their label values, families without
/// series left out), so it is named.
#[verifier::external_body]
fn render_board(b: &Board) -> (r: String)
    ensures
        r@ == exposition(board_gauges(*b), board_families(*b)),
{
    let mut buffer: Vec<u8> = Vec::new();
    match prometheus::Encoder::encode(&prometheus::TextEncoder::new(), &b.registry.gather(), &mut buffer) {
        Ok(()) => String::from_utf8_lossy(&buffer).into_owned(),
        Err(_) => String::new(),
    }
}

/// Trusted: formats a prometheus error with its `Display` implementation;
/// nothing is claimed about the text.
#[verifier::external_body]
fn describe_error(e: &prometheus::Error) -> (r: String) {
    format!("{e}")
}

/// Why the gauges could not be set up: prometheus refused a gauge or its
/// registration, for the reason given.
#[derive(Debug)]
pub struct MetricsError {
    pub reason: String,
}

fn refused(e: prometheus::Error) -> (r: MetricsError) {
    MetricsError { reason: describe_error(&e) }
}

// ── The guardian's gauges ─────────────────────────────────────

/// The four totals, in the order they are registered: name and help text.
pub open spec fn total_gauges() -> Seq<(Seq<char>, Seq<char>)> {
    seq![
        ("gugu_processes"@, "Total number of managed processes"@),
        ("gugu_processes_running"@, "Number of running processes"@),
        ("gugu_processes_stopped"@, "Number of stopped processes"@),
        ("gugu_processes_failed"@, "Number of failed processes"@),
    ]
}

/// The four per-process families, in the order they are registered: status,
/// crash restarts, uptime, health.
pub open spec fn process_families() -> Seq<(Seq<char>, Seq<char>)> {
    seq![
        ("gugu_process_status"@, "Process status: 1=running, 0=stopped, 2=starting, 3=restarting, 4=failed"@),
        ("gugu_process_restarts_total"@, "Number of crash restarts for the process"@),
        ("gugu_process_uptime_seconds"@, "Process uptime in seconds"@),
        ("gugu_process_health_status"@, "Health check result: 1=healthy, 0=unhealthy"@),
    ]
}

/// All eight names and help texts, totals first.
pub open spec fn all_gauges() -> Seq<(Seq<char>, Seq<char>)> {
    total_gauges() + process_families()
}

/// No two of the names of `all_gauges` share a descriptor identity, so a
/// registry takes all of them.
pub open spec fn descriptors_distinct() -> bool {
    forall|i: int, j: int|
        0 <= i < j < 8 ==> descriptor_key(#[trigger] all_gauges()[i].0) != descriptor_key(
            #[trigger] all_gauges()[j].0,
        )
}

/// Every name of `all_gauges` is a valid metric name, and no help text is
/// empty.
proof fn lemma_gauges_valid()
    ensures
        forall|i: int| #![trigger all_gauges()[i]] 0 <= i < 8 ==> is_metric_name(all_gauges()[i].0) && all_gauges()[i].1.len() > 0,
{
    reveal_strlit("gugu_processes");
    reveal_strlit("gugu_processes_running");
    reveal_strlit("gugu_processes_stopped");
    reveal_strlit("gugu_processes_failed");
    reveal_strlit("gugu_process_status");
    reveal_strlit("gugu_process_restarts_total");
    reveal_strlit("gugu_process_uptime_seconds");
    reveal_strlit("gugu_process_health_status");
    reveal_strlit("Total number of managed processes");
    reveal_strlit("Number of running processes");
    reveal_strlit("Number of stopped processes");
    reveal_strlit("Number of failed processes");
    reveal_strlit("Process status: 1=running, 0=stopped, 2=starting, 3=restarting, 4=failed");
    reveal_strlit("Number of crash restarts for the process");
    reveal_strlit("Process uptime in seconds");
    reveal_strlit("Health check result: 1=healthy, 0=unhealthy");
    assert(is_metric_name(all_gauges()[0].0));
    assert(is_metric_name(all_gauges()[1].0));
    assert(is_metric_name(all_gauges()[2].0));
    assert(is_metric_name(all_gauges()[3].0));
    assert(is_metric_name(all_gauges()[4].0));
    assert(is_metric_name(all_gauges()[5].0));
    assert(is_metric_name(all_gauges()[6].0));
    assert(is_metric_name(all_gauges()[7].0));
}

/// The keys of the series of `names`.
pub open spec fn name_keys(names: Seq<Seq<char>>) -> Set<u64> {
    Set::new(|k: u64| exists|i: int| 0 <= i < names.len() && label_key(#[trigger] names[i]) == k)
}

/// `n` is the only name among `names` with its series key.
pub open spec fn sole_key(names: Seq<Seq<char>>, n: Seq<char>) -> bool {
    forall|j: int| 0 <= j < names.len() && label_key(#[trigger] names[j]) == label_key(n) ==> names[j] == n
}

/// Process `i` is the last of `ps` with its name, and no other name of `ps`
/// shares its series key: the series under that key are then its own.
pub open spec fn last_with_key(ps: Seq<ProcessInfo>, i: int) -> bool {
    &&& forall|j: int| i < j < ps.len() ==> (#[trigger] ps[j]).name@ != ps[i].name@
    &&& sole_key(info_names(ps), ps[i].name@)
}

/// Process `i` is the only one of `ps` with its name.
pub open spec fn only_with_name(ps: Seq<ProcessInfo>, i: int) -> bool {
    forall|j: int| 0 <= j < ps.len() && j != i ==> (#[trigger] ps[j]).name@ != ps[i].name@
}

/// `m` without the series of `names`, dropped one after the other.
spec fn drop_keys(m: Series, names: Seq<Seq<char>>) -> Series
    decreases names.len(),
{
    if names.len() == 0 {
        m
    } else {
        drop_keys(m, names.drop_last()).remove(label_key(names.last()))
    }
}

/// What row `row` sets in the `k`-th family, if anything.
spec fn row_reading(row: GaugeRow, k: int) -> Option<i64> {
    if k == 0 {
        Some(row.status)
    } else if k == 1 {
        Some(row.restarts)
    } else if k == 2 {
        Some(row.uptime)
    } else {
        row.health
    }
}

/// `m` after the `k`-th family's series of `rows` are set one after the other.
spec fn put_rows(m: Series, rows: Seq<GaugeRow>, k: int) -> Series
    decreases rows.len(),
{
    if rows.len() == 0 {
        m
    } else {
        let before = put_rows(m, rows.drop_last(), k);
        match row_reading(rows.last(), k) {
            Some(v) => put_series(before, rows.last().name@, v),
            None => before,
        }
    }
}

proof fn lemma_stale(prev: Seq<Seq<char>>, cur: Seq<Seq<char>>)
    ensures
        forall|x: Seq<char>|
            #[trigger] stale_names(prev, cur).contains(x) <==> prev.contains(x) && !cur.contains(x),
    decreases prev.len(),
{
    if prev.len() > 0 {
        let d = prev.drop_last();
        lemma_stale(d, cur);
        let s0 = stale_names(d, cur);
        assert forall|x: Seq<char>|
            #[trigger] stale_names(prev, cur).contains(x) <==> prev.contains(x) && !cur.contains(x) by {
            assert(prev.contains(x) <==> d.contains(x) || x == prev.last()) by {
                if prev.contains(x) {
                    let j = choose|j: int| 0 <= j < prev.len() && prev[j] == x;
                    if j < prev.len() - 1 {
                        assert(d[j] == x);
                    }
                }
                if d.contains(x) {
                    let j = choose|j: int| 0 <= j < d.len() && d[j] == x;
                    assert(prev[j] == x);
                }
                if x == prev.last() {
                    assert(prev[prev.len() - 1] == x);
                }
            }
            assert(s0.push(prev.last()).contains(x) <==> s0.contains(x) || x == prev.last()) by {
                let t = s0.push(prev.last());
                if t.contains(x) {
                    let j = choose|j: int| 0 <= j < t.len() && t[j] == x;
                    if j < s0.len() {
                        assert(s0[j] == x);
                    }
                }
                if s0.contains(x) {
                    let j = choose|j: int| 0 <= j < s0.len() && s0[j] == x;
                    assert(t[j] == x);
                }
                if x == prev.last() {
                    assert(t[s0.len() as int] == x);
                }
            }
        }
    } else {
        assert forall|x: Seq<char>| !#[trigger] stale_names(prev, cur).contains(x) by {}
    }
}

proof fn lemma_name_keys_push(s: Seq<Seq<char>>)
    requires
        s.len() > 0,
    ensures
        forall|k: u64| #[trigger] name_keys(s).contains(k) <==> name_keys(s.drop_last()).contains(k) || label_key(s.last()) == k,
{
    assert forall|k: u64| #[trigger] name_keys(s).contains(k) <==> name_keys(s.drop_last()).contains(k) || label_key(s.last()) == k by {
        if name_keys(s).contains(k) {
            let j = choose|j: int| 0 <= j < s.len() && label_key(#[trigger] s[j]) == k;
            if j < s.len() - 1 {
                assert(label_key(s.drop_last()[j]) == k);
            }
        }
        if name_keys(s.drop_last()).contains(k) {
            let j = choose|j: int| 0 <= j < s.drop_last().len() && label_key(#[trigger] s.drop_last()[j]) == k;
            assert(label_key(s[j]) == k);
        }
        if label_key(s.last()) == k {
            assert(label_key(s[s.len() - 1]) == k);
        }
    }
}

proof fn lemma_drop(m: Series, s: Seq<Seq<char>>)
    ensures
        forall|key: u64|
            #[trigger] drop_keys(m, s).contains_key(key) <==> m.contains_key(key) && !name_keys(s).contains(key),
        forall|key: u64| #[trigger] drop_keys(m, s).contains_key(key) ==> drop_keys(m, s)[key] == m[key],
    decreases s.len(),
{
    if s.len() > 0 {
        let d = s.drop_last();
        lemma_drop(m, d);
        lemma_name_keys_push(s);
        assert forall|key: u64| #[trigger] drop_keys(m, s).contains_key(key) <==> m.contains_key(key)
            && !name_keys(s).contains(key) by {
            assert(drop_keys(m, d).contains_key(key) <==> m.contains_key(key) && !name_keys(d).contains(key));
            assert(name_keys(s).contains(key) <==> name_keys(d).contains(key) || label_key(s.last()) == key);
        }
        assert forall|key: u64| #[trigger] drop_keys(m, s).contains_key(key) implies drop_keys(m, s)[key] == m[key] by {
            assert(drop_keys(m, d).contains_key(key));
        }
    } else {
        assert forall|key: u64| !#[trigger] name_keys(s).contains(key) by {}
    }
}

/// Where the `k`-th family's rows are set on `m`: a series is there when it
/// was in `m` or some row set it; it keeps the label of `m`, else it carries
/// the name of a row filed under its key.
proof fn lemma_put_dom(m: Series, rows: Seq<GaugeRow>, k: int)
    ensures
        forall|key: u64|
            #[trigger] put_rows(m, rows, k).contains_key(key) <==> m.contains_key(key) || exists|j: int|
                0 <= j < rows.len() && row_reading(rows[j], k) is Some && label_key(#[trigger] rows[j].name@) == key,
        forall|key: u64|
            #[trigger] put_rows(m, rows, k).contains_key(key) ==> (if m.contains_key(key) {
                put_rows(m, rows, k)[key].0 == m[key].0
            } else {
                exists|j: int| 0 <= j < rows.len() && (#[trigger] rows[j].name@) == put_rows(m, rows, k)[key].0
                    && label_key(rows[j].name@) == key
            }),
    decreases rows.len(),
{
    if rows.len() > 0 {
        let d = rows.drop_last();
        lemma_put_dom(m, d, k);
        let before = put_rows(m, d, k);
        let last = rows.last();
        assert forall|key: u64| #[trigger] put_rows(m, rows, k).contains_key(key) <==> m.contains_key(key) || exists|j: int|
                0 <= j < rows.len() && row_reading(rows[j], k) is Some && label_key(#[trigger] rows[j].name@) == key by {
            if exists|j: int| 0 <= j < rows.len() && row_reading(rows[j], k) is Some && label_key(#[trigger] rows[j].name@) == key {
                let j = choose|j: int| 0 <= j < rows.len() && row_reading(rows[j], k) is Some && label_key(#[trigger] rows[j].name@) == key;
                if j < rows.len() - 1 {
                    assert(d[j] == rows[j]);
                }
            }
            if exists|j: int| 0 <= j < d.len() && row_reading(d[j], k) is Some && label_key(#[trigger] d[j].name@) == key {
                let j = choose|j: int| 0 <= j < d.len() && row_reading(d[j], k) is Some && label_key(#[trigger] d[j].name@) == key;
                assert(rows[j] == d[j]);
            }
            assert(rows[rows.len() - 1] == last);
        }
        assert forall|key: u64| #[trigger] put_rows(m, rows, k).contains_key(key) implies (if m.contains_key(key) {
                put_rows(m, rows, k)[key].0 == m[key].0
            } else {
                exists|j: int| 0 <= j < rows.len() && (#[trigger] rows[j].name@) == put_rows(m, rows, k)[key].0
                    && label_key(rows[j].name@) == key
            }) by {
            if before.contains_key(key) && !m.contains_key(key) {
                let j = choose|j: int| 0 <= j < d.len() && (#[trigger] d[j].name@) == before[key].0
                    && label_key(d[j].name@) == key;
                assert(rows[j] == d[j]);
            }
            assert(rows[rows.len() - 1] == last);
        }
    }
}

/// A row that no later row files under the same key: after the rows are
/// set, its series reads what it set.
proof fn lemma_put_at(m: Series, rows: Seq<GaugeRow>, k: int, i: int)
    requires
        0 <= i < rows.len(),
        forall|j: int| i < j < rows.len() ==> label_key(#[trigger] rows[j].name@) != label_key(rows[i].name@),
    ensures
        row_reading(rows[i], k) matches Some(v) ==> put_rows(m, rows, k).contains_key(label_key(rows[i].name@))
            && put_rows(m, rows, k)[label_key(rows[i].name@)].1 == v,
    decreases rows.len(),
{
    let d = rows.drop_last();
    if i < rows.len() - 1 {
        assert forall|j: int| i < j < d.len() implies label_key(#[trigger] d[j].name@) != label_key(d[i].name@) by {
            assert(d[j] == rows[j]);
        }
        lemma_put_at(m, d, k, i);
        assert(rows[rows.len() - 1] == rows.last());
    }
}

/// A row that sets nothing, filed apart from every other row: after the rows
/// are set, its series is as in `m`.
proof fn lemma_put_skip(m: Series, rows: Seq<GaugeRow>, k: int, i: int)
    requires
        0 <= i < rows.len(),
        row_reading(rows[i], k) is None,
        forall|j: int| 0 <= j < rows.len() && j != i ==> label_key(#[trigger] rows[j].name@) != label_key(rows[i].name@),
    ensures
        put_rows(m, rows, k).contains_key(label_key(rows[i].name@)) <==> m.contains_key(label_key(rows[i].name@)),
        m.contains_key(label_key(rows[i].name@)) ==> put_rows(m, rows, k)[label_key(rows[i].name@)] == m[label_key(rows[i].name@)],
    decreases rows.len(),
{
    let key = label_key(rows[i].name@);
    let d = rows.drop_last();
    if i == rows.len() - 1 {
        assert forall|j: int| 0 <= j < d.len() implies label_key(#[trigger] d[j].name@) != key by {
            assert(d[j] == rows[j]);
        }
        lemma_put_untouched(m, d, k, key);
    } else {
        assert forall|j: int| 0 <= j < d.len() && j != i implies label_key(#[trigger] d[j].name@) != label_key(d[i].name@) by {
            assert(d[j] == rows[j]);
        }
        lemma_put_skip(m, d, k, i);
        assert(rows[rows.len() - 1] == rows.last());
    }
}

/// Rows filed under other keys leave the series under `key` as it was.
proof fn lemma_put_untouched(m: Series, rows: Seq<GaugeRow>, k: int, key: u64)
    requires
        forall|j: int| 0 <= j < rows.len() ==> label_key(#[trigger] rows[j].name@) != key,
    ensures
        put_rows(m, rows, k).contains_key(key) <==> m.contains_key(key),
        m.contains_key(key) ==> put_rows(m, rows, k)[key] == m[key],
    decreases rows.len(),
{
    if rows.len() > 0 {
        let d = rows.drop_last();
        assert forall|j: int| 0 <= j < d.len() implies label_key(#[trigger] d[j].name@) != key by {
            assert(d[j] == rows[j]);
        }
        lemma_put_untouched(m, d, k, key);
        assert(rows[rows.len() - 1] == rows.last());
    }
}

/// A name of `prev` whose key no stale name has is still current.
proof fn lemma_still_current(prev: Seq<Seq<char>>, cur: Seq<Seq<char>>, l: Seq<char>)
    requires
        prev.contains(l),
        !name_keys(stale_names(prev, cur)).contains(label_key(l)),
    ensures
        cur.contains(l),
{
    lemma_stale(prev, cur);
    if !cur.contains(l) {
        let s = stale_names(prev, cur);
        assert(s.contains(l));
        let j = choose|j: int| 0 <= j < s.len() && s[j] == l;
        assert(label_key(s[j]) == label_key(l));
        assert(name_keys(s).contains(label_key(l)));
    }
}

/// What one refresh does to the series: from the series before, those of
/// the stale names dropped, the rows set.
proof fn lemma_update_model(
    prev: Seq<Seq<char>>,
    ps: Seq<ProcessInfo>,
    rows: Seq<GaugeRow>,
    old_fams: Seq<(Seq<char>, Seq<char>, Series)>,
    base: Seq<(Seq<char>, Seq<char>, Series)>,
    fams: Seq<(Seq<char>, Seq<char>, Series)>,
)
    requires
        old_fams.len() == 4,
        base.len() == 4,
        fams.len() == 4,
        rows.len() == ps.len(),
        forall|i: int| 0 <= i < ps.len() ==> row_of(#[trigger] rows[i], ps[i]),
        forall|k: int| 0 <= k < 4 ==> (#[trigger] base[k]).2 == drop_keys(old_fams[k].2, stale_names(prev, info_names(ps))),
        forall|k: int| 0 <= k < 4 ==> (#[trigger] fams[k]).2 == put_rows(base[k].2, rows, k),
        forall|k: int| 0 <= k < 3 ==> (#[trigger] old_fams[k]).2.dom() == name_keys(prev),
        old_fams[3].2.dom().subset_of(name_keys(prev)),
        forall|k: int, key: u64|
            0 <= k < 4 && #[trigger] old_fams[k].2.contains_key(key) ==> label_key(old_fams[k].2[key].0) == key
                && prev.contains(old_fams[k].2[key].0),
    ensures
        forall|k: int| 0 <= k < 3 ==> (#[trigger] fams[k]).2.dom() == name_keys(info_names(ps)),
        fams[3].2.dom().subset_of(name_keys(info_names(ps))),
        forall|k: int, key: u64|
            0 <= k < 4 && #[trigger] fams[k].2.contains_key(key) ==> label_key(fams[k].2[key].0) == key
                && info_names(ps).contains(fams[k].2[key].0),
        forall|i: int|
            0 <= i < ps.len() && #[trigger] last_with_key(ps, i) ==> {
                let n = ps[i].name@;
                let key = label_key(n);
                &&& fams[0].2[key] == (n, status_value(ps[i].status))
                &&& fams[1].2[key] == (n, ps[i].restart_count as i64)
                &&& fams[2].2[key] == (n, match ps[i].uptime_secs {
                    Some(u) => u,
                    None => 0i64,
                })
                &&& match ps[i].healthy {
                    Some(h) => fams[3].2.contains_key(key) && fams[3].2[key] == (n, if h { 1i64 } else { 0i64 }),
                    None => only_with_name(ps, i) ==> {
                        &&& fams[3].2.contains_key(key) <==> old_fams[3].2.contains_key(key)
                            && !name_keys(stale_names(prev, info_names(ps))).contains(key)
                        &&& fams[3].2.contains_key(key) ==> fams[3].2[key] == old_fams[3].2[key]
                    },
                }
            },
{
    let cur = info_names(ps);
    let stale = stale_names(prev, cur);
    lemma_stale(prev, cur);
    assert forall|j: int| 0 <= j < ps.len() implies (#[trigger] rows[j]).name@ == cur[j] by {
        assert(row_of(rows[j], ps[j]));
    }
    assert forall|k: int| 0 <= k < 4 implies ({
        &&& forall|key: u64| #[trigger] fams[k].2.contains_key(key) ==> label_key(fams[k].2[key].0) == key
                && cur.contains(fams[k].2[key].0)
        &&& k < 3 ==> fams[k].2.dom() == name_keys(cur)
        &&& k == 3 ==> fams[k].2.dom().subset_of(name_keys(cur))
    }) by {
        lemma_drop(old_fams[k].2, stale);
        lemma_put_dom(base[k].2, rows, k);
        assert forall|key: u64| #[trigger] fams[k].2.contains_key(key) implies label_key(fams[k].2[key].0) == key
            && cur.contains(fams[k].2[key].0) && name_keys(cur).contains(key) by {
            if base[k].2.contains_key(key) {
                let l = old_fams[k].2[key].0;
                assert(old_fams[k].2.contains_key(key));
                lemma_still_current(prev, cur, l);
                let q = choose|q: int| 0 <= q < cur.len() && cur[q] == l;
                assert(label_key(cur[q]) == key);
            } else {
                let j = choose|j: int| 0 <= j < rows.len() && (#[trigger] rows[j].name@) == fams[k].2[key].0
                    && label_key(rows[j].name@) == key;
                assert(cur[j] == rows[j].name@);
                assert(label_key(cur[j]) == key);
            }
        }
        if k < 3 {
            assert forall|key: u64| name_keys(cur).contains(key) implies #[trigger] fams[k].2.contains_key(key) by {
                let j = choose|j: int| 0 <= j < cur.len() && label_key(#[trigger] cur[j]) == key;
                assert(rows[j].name@ == cur[j]);
                assert(row_reading(rows[j], k) is Some);
            }
            assert(fams[k].2.dom() =~= name_keys(cur));
        }
    }
    assert forall|i: int| 0 <= i < ps.len() && #[trigger] last_with_key(ps, i) implies {
        let n = ps[i].name@;
        let key = label_key(n);
        &&& fams[0].2[key] == (n, status_value(ps[i].status))
        &&& fams[1].2[key] == (n, ps[i].restart_count as i64)
        &&& fams[2].2[key] == (n, match ps[i].uptime_secs {
            Some(u) => u,
            None => 0i64,
        })
        &&& match ps[i].healthy {
            Some(h) => fams[3].2.contains_key(key) && fams[3].2[key] == (n, if h { 1i64 } else { 0i64 }),
            None => only_with_name(ps, i) ==> {
                &&& fams[3].2.contains_key(key) <==> old_fams[3].2.contains_key(key)
                    && !name_keys(stale).contains(key)
                &&& fams[3].2.contains_key(key) ==> fams[3].2[key] == old_fams[3].2[key]
            },
        }
    } by {
        let n = ps[i].name@;
        let key = label_key(n);
        assert(cur[i] == n);
        assert forall|j: int| i < j < rows.len() implies label_key(#[trigger] rows[j].name@) != label_key(rows[i].name@) by {
            assert(ps[j].name@ != n);
            if label_key(cur[j]) == key {
                assert(cur[j] == n);
            }
        }
        assert forall|k: int| 0 <= k < 4 && #[trigger] fams[k].2.contains_key(key) implies fams[k].2[key].0 == n by {
            let l = fams[k].2[key].0;
            assert(label_key(l) == key && cur.contains(l));
            let q = choose|q: int| 0 <= q < cur.len() && cur[q] == l;
            assert(label_key(cur[q]) == key);
        }
        assert(row_of(rows[i], ps[i]));
        lemma_put_at(base[0].2, rows, 0, i);
        lemma_put_at(base[1].2, rows, 1, i);
        lemma_put_at(base[2].2, rows, 2, i);
        lemma_put_at(base[3].2, rows, 3, i);
        assert(fams[0].2.contains_key(key));
        assert(fams[1].2.contains_key(key));
        assert(fams[2].2.contains_key(key));
        if ps[i].healthy is None && only_with_name(ps, i) {
            assert forall|j: int| 0 <= j < rows.len() && j != i implies label_key(#[trigger] rows[j].name@) != label_key(rows[i].name@) by {
                assert(ps[j].name@ != n);
                if label_key(cur[j]) == key {
                    assert(cur[j] == n);
                }
            }
            lemma_put_skip(base[3].2, rows, 3, i);
            lemma_drop(old_fams[3].2, stale);
        }
    }
}

/// The exported gauges of the guardian.
pub struct Metrics {
    board: Board,
    prev_names: Vec<String>,
}

impl Metrics {
    /// The names exported by the last refresh.
    pub closed spec fn exported_names(&self) -> Seq<Seq<char>> {
        views(self.prev_names@)
    }

    /// The totals, in the order of `total_gauges`: name, help text, reading.
    pub closed spec fn totals(&self) -> Seq<(Seq<char>, Seq<char>, i64)> {
        board_gauges(self.board)
    }

    /// The per-process families, in the order of `process_families`.
    pub closed spec fn families(&self) -> Seq<(Seq<char>, Seq<char>, Series)> {
        board_families(self.board)
    }

    /// The series of the `k`-th per-process family.
    pub open spec fn series(&self, k: int) -> Series {
        self.families()[k].2
    }

    /// The readings of the four totals.
    pub open spec fn total_readings(&self) -> Seq<i64> {
        self.totals().map_values(|g: (Seq<char>, Seq<char>, i64)| g.2)
    }

    /// The gauges are those of `all_gauges`; the status, restart and uptime
    /// families hold a series for each exported name and the health family
    /// for some of them; every series carries an exported name filed under
    /// its own key.
    pub closed spec fn wf(&self) -> bool {
        &&& self.totals().len() == 4
        &&& self.families().len() == 4
        &&& forall|k: int|
            0 <= k < 4 ==> (#[trigger] self.totals()[k]).0 == total_gauges()[k].0
                && self.totals()[k].1 == total_gauges()[k].1
        &&& forall|k: int|
            0 <= k < 4 ==> (#[trigger] self.families()[k]).0 == process_families()[k].0
                && self.families()[k].1 == process_families()[k].1
        &&& forall|k: int| 0 <= k < 3 ==> #[trigger] self.series(k).dom() == name_keys(self.exported_names())
        &&& self.series(3).dom().subset_of(name_keys(self.exported_names()))
        &&& forall|k: int, key: u64|
            0 <= k < 4 && #[trigger] self.series(k).contains_key(key) ==> label_key(self.series(k)[key].0)
                == key && self.exported_names().contains(self.series(k)[key].0)
    }

    /// Creates the gauges and registers them. Their names and help texts are
    /// all valid, so it succeeds exactly when no two names share a
    /// descriptor identity; then all totals read 0 and no family has a
    /// series.
    pub fn new() -> (r: Result<Metrics, MetricsError>)
        ensures
            r is Ok <==> descriptors_distinct(),
            r matches Ok(m) ==> {
                &&& m.wf()
                &&& m.exported_names() == Seq::<Seq<char>>::empty()
                &&& m.total_readings() == seq![0i64, 0i64, 0i64, 0i64]
                &&& forall|k: int| 0 <= k < 4 ==> #[trigger] m.series(k) == Map::<u64, (Seq<char>, i64)>::empty()
            },
    {
        let mut b = new_board();
        let names: [&str; 8] = [
            "gugu_processes",
            "gugu_processes_running",
            "gugu_processes_stopped",
            "gugu_processes_failed",
            "gugu_process_status",
            "gugu_process_restarts_total",
            "gugu_process_uptime_seconds",
            "gugu_process_health_status",
        ];
        let helps: [&str; 8] = [
            "Total number of managed processes",
            "Number of running processes",
            "Number of stopped processes",
            "Number of failed processes",
            "Process status: 1=running, 0=stopped, 2=starting, 3=restarting, 4=failed",
            "Number of crash restarts for the process",
            "Process uptime in seconds",
            "Health check result: 1=healthy, 0=unhealthy",
        ];
        assert(forall|i: int| 0 <= i < 8 ==> (#[trigger] names@[i])@ == all_gauges()[i].0 && helps@[i]@ == all_gauges()[i].1);
        for i in 0..8usize
            invariant
                forall|j: int| 0 <= j < 8 ==> (#[trigger] names@[j])@ == all_gauges()[j].0 && helps@[j]@ == all_gauges()[j].1,
                board_gauges(b).len() == if i < 4 { i as int } else { 4 },
                board_families(b).len() == if i < 4 { 0 } else { i - 4 },
                forall|j: int| 0 <= j < board_gauges(b).len() ==> #[trigger] board_gauges(b)[j] == (all_gauges()[j].0, all_gauges()[j].1, 0i64),
                forall|j: int| 0 <= j < board_families(b).len() ==> #[trigger] board_families(b)[j] == (all_gauges()[j + 4].0, all_gauges()[j + 4].1, Map::<u64, (Seq<char>, i64)>::empty()),
                forall|j: int, l: int| 0 <= j < l < i ==> descriptor_key(#[trigger] all_gauges()[j].0) != descriptor_key(#[trigger] all_gauges()[l].0),
        {
            let ghost before = b;
            let res = if i < 4 {
                add_gauge(&mut b, names[i], helps[i])
            } else {
                add_family(&mut b, names[i], helps[i])
            };
            proof {
                assert(((forall|j: int| 0 <= j < board_gauges(before).len() ==> descriptor_key(#[trigger] board_gauges(before)[j].0) != descriptor_key(all_gauges()[i as int].0)) && (forall|j: int| 0 <= j < board_families(before).len() ==> descriptor_key(#[trigger] board_families(before)[j].0) != descriptor_key(all_gauges()[i as int].0))) <==> forall|j: int| 0 <= j < i ==> descriptor_key(#[trigger] all_gauges()[j].0) != descriptor_key(all_gauges()[i as int].0)) by {
                    if ((forall|j: int| 0 <= j < board_gauges(before).len() ==> descriptor_key(#[trigger] board_gauges(before)[j].0) != descriptor_key(all_gauges()[i as int].0)) && (forall|j: int| 0 <= j < board_families(before).len() ==> descriptor_key(#[trigger] board_families(before)[j].0) != descriptor_key(all_gauges()[i as int].0))) {
                        assert forall|j: int| 0 <= j < i implies descriptor_key(#[trigger] all_gauges()[j].0) != descriptor_key(all_gauges()[i as int].0) by {
                            if j < 4 {
                                assert(board_gauges(before)[j].0 == all_gauges()[j].0);
                            } else {
                                assert(board_families(before)[j - 4].0 == all_gauges()[j].0);
                            }
                        }
                    }
                }
            }
            match res {
                Ok(()) => {},
                Err(e) => {
                    proof {
                        assert(!descriptors_distinct()) by {
                            lemma_gauges_valid();
                            assert(is_metric_name(all_gauges()[i as int].0) && all_gauges()[i as int].1.len() > 0);
                            {
                                let j = choose|j: int| 0 <= j < i && descriptor_key(#[trigger] all_gauges()[j].0) == descriptor_key(all_gauges()[i as int].0);
                                assert(descriptor_key(all_gauges()[j].0) == descriptor_key(all_gauges()[i as int].0));
                            }
                        }
                    }
                    return Err(refused(e));
                },
            }
        }
        let m = Metrics { board: b, prev_names: Vec::new() };
        proof {
            assert(views(m.prev_names@) =~= Seq::<Seq<char>>::empty());
            assert(name_keys(Seq::<Seq<char>>::empty()) =~= Set::<u64>::empty());
            assert(m.total_readings() =~= seq![0i64, 0i64, 0i64, 0i64]);
        }
        Ok(m)
    }

    /// Refreshes the gauges from the current processes: the series of
    /// processes that are gone are dropped, each process's series are set as
    /// `plan_metrics` works them out, and the totals follow.
    pub fn update(&mut self, processes: &[ProcessInfo])
        requires
            old(self).wf(),
            processes@.len() <= i64::MAX,
        ensures
            final(self).wf(),
            final(self).exported_names() == info_names(processes@),
            final(self).total_readings() == seq![
                processes@.len() as i64,
                count_status(processes@, |s: ProcessStatus| running_status(s)) as i64,
                count_status(processes@, |s: ProcessStatus| stopped_status(s)) as i64,
                count_status(processes@, |s: ProcessStatus| failed_status(s)) as i64,
            ],
            forall|k: int| 0 <= k < 3 ==> #[trigger] final(self).series(k).dom() == name_keys(info_names(processes@)),
            final(self).series(3).dom().subset_of(name_keys(info_names(processes@))),
            forall|k: int, key: u64|
                0 <= k < 4 && #[trigger] final(self).series(k).contains_key(key) ==> label_key(final(self).series(k)[key].0)
                    == key && info_names(processes@).contains(final(self).series(k)[key].0),
            forall|i: int|
                0 <= i < processes@.len() && #[trigger] last_with_key(processes@, i) ==> {
                    let n = processes@[i].name@;
                    let key = label_key(n);
                    &&& final(self).series(0)[key] == (n, status_value(processes@[i].status))
                    &&& final(self).series(1)[key] == (n, processes@[i].restart_count as i64)
                    &&& final(self).series(2)[key] == (n, match processes@[i].uptime_secs {
                        Some(u) => u,
                        None => 0i64,
                    })
                    &&& match processes@[i].healthy {
                        Some(h) => final(self).series(3).contains_key(key) && final(self).series(3)[key] == (
                            n,
                            if h { 1i64 } else { 0i64 },
                        ),
                        None => only_with_name(processes@, i) ==> {
                            &&& final(self).series(3).contains_key(key) <==> old(self).series(3).contains_key(key)
                                && !name_keys(stale_names(old(self).exported_names(), info_names(processes@))).contains(key)
                            &&& final(self).series(3).contains_key(key) ==> final(self).series(3)[key] == old(self).series(3)[key]
                        },
                    }
                },
    {
        let ghost prev = views(self.prev_names@);
        let ghost cur = info_names(processes@);
        let ghost old_fams = board_families(self.board);
        let ghost old_gauges = board_gauges(self.board);
        proof {
            assert forall|k: int| 0 <= k < 3 implies (#[trigger] old_fams[k]).2.dom() == name_keys(prev) by {
                assert(self.series(k).dom() == name_keys(self.exported_names()));
            }
            assert forall|k: int, key: u64| 0 <= k < 4 && #[trigger] old_fams[k].2.contains_key(key) implies label_key(old_fams[k].2[key].0) == key
                && prev.contains(old_fams[k].2[key].0) by {
                assert(self.series(k).contains_key(key));
            }
        }
        let plan = plan_metrics(&self.prev_names, processes);
        let ns = plan.stale.len();
        for i in 0..ns
            invariant
                ns == plan.stale@.len(),
                board_gauges(self.board) == old_gauges,
                board_families(self.board).len() == 4,
                old_fams.len() == 4,
                forall|k: int|
                    0 <= k < 4 ==> (#[trigger] board_families(self.board)[k]).0 == old_fams[k].0
                        && board_families(self.board)[k].1 == old_fams[k].1
                        && board_families(self.board)[k].2 == drop_keys(old_fams[k].2, views(plan.stale@).take(i as int)),
        {
            let name = plan.stale[i].as_str();
            proof {
                assert(views(plan.stale@).take(i + 1).drop_last() =~= views(plan.stale@).take(i as int));
                assert(views(plan.stale@).take(i + 1).last() == name@);
            }
            remove_member(&mut self.board, 0, name);
            remove_member(&mut self.board, 1, name);
            remove_member(&mut self.board, 2, name);
            remove_member(&mut self.board, 3, name);
        }
        let ghost base = board_families(self.board);
        proof {
            assert(views(plan.stale@).take(ns as int) =~= views(plan.stale@));
        }
        let nr = plan.rows.len();
        for i in 0..nr
            invariant
                nr == plan.rows@.len(),
                board_gauges(self.board) == old_gauges,
                board_families(self.board).len() == 4,
                base.len() == 4,
                forall|k: int|
                    0 <= k < 4 ==> (#[trigger] board_families(self.board)[k]).0 == base[k].0
                        && board_families(self.board)[k].1 == base[k].1
                        && board_families(self.board)[k].2 == put_rows(base[k].2, plan.rows@.take(i as int), k),
        {
            let row = &plan.rows[i];
            proof {
                assert(plan.rows@.take(i + 1).drop_last() =~= plan.rows@.take(i as int));
                assert(plan.rows@.take(i + 1).last() == *row);
            }
            set_member(&mut self.board, 0, row.name.as_str(), row.status);
            set_member(&mut self.board, 1, row.name.as_str(), row.restarts);
            set_member(&mut self.board, 2, row.name.as_str(), row.uptime);
            if let Some(h) = row.health {
                set_member(&mut self.board, 3, row.name.as_str(), h);
            }
        }
        proof {
            assert(plan.rows@.take(nr as int) =~= plan.rows@);
        }
        set_gauge(&mut self.board, 0, plan.total);
        set_gauge(&mut self.board, 1, plan.running);
        set_gauge(&mut self.board, 2, plan.stopped);
        set_gauge(&mut self.board, 3, plan.failed);
        self.prev_names = process_names(processes);
        proof {
            lemma_update_model(prev, processes@, plan.rows@, old_fams, base, board_families(self.board));
            assert(self.total_readings() =~= seq![plan.total, plan.running, plan.stopped, plan.failed]);
        }
    }

    /// The gauges in the Prometheus text format.
    pub fn render(&self) -> (r: String)
        ensures
            r@ == exposition(self.totals(), self.families()),
    {
        render_board(&self.board)
    }
}

} // verus!
