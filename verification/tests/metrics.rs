use gugu_guard::metrics::{plan_metrics, Metrics};
use gugu_guard::process::{ProcessInfo, ProcessStatus};

fn info(name: &str, status: ProcessStatus, healthy: Option<bool>) -> ProcessInfo {
    ProcessInfo {
        name: name.to_string(),
        command: "echo".to_string(),
        args: Vec::new(),
        status,
        pid: None,
        restart_count: 3,
        auto_start: true,
        auto_restart: true,
        has_health_check: healthy.is_some(),
        unhealthy_restart: false,
        healthy,
        started_at: None,
        uptime_secs: Some(42),
        group: None,
    }
}

#[test]
fn gauges_follow_the_processes() {
    let prev = vec!["a".to_string(), "gone".to_string()];
    let ps = vec![
        info("a", ProcessStatus::Running, Some(true)),
        info("b", ProcessStatus::Failed("x".to_string()), None),
        info("c", ProcessStatus::Restarting, Some(false)),
        info("d", ProcessStatus::Starting, None),
        info("e", ProcessStatus::Stopped, None),
    ];
    let plan = plan_metrics(&prev, &ps);
    assert_eq!(plan.stale, vec!["gone"]);
    let statuses: Vec<i64> = plan.rows.iter().map(|r| r.status).collect();
    assert_eq!(statuses, vec![1, 4, 3, 2, 0]);
    assert_eq!(plan.rows[0].health, Some(1));
    assert_eq!(plan.rows[1].health, None);
    assert_eq!(plan.rows[2].health, Some(0));
    assert_eq!(plan.rows[0].restarts, 3);
    assert_eq!(plan.rows[0].uptime, 42);
    assert_eq!((plan.total, plan.running, plan.stopped, plan.failed), (5, 1, 1, 1));
}

#[test]
fn exported_text_reflects_the_last_refresh() {
    let mut m = Metrics::new().expect("metrics");
    m.update(&[info("a", ProcessStatus::Running, Some(true)), info("b", ProcessStatus::Stopped, None)]);
    let text = m.render();
    assert!(text.contains("gugu_processes 2"));
    assert!(text.contains("gugu_processes_running 1"));
    assert!(text.contains("gugu_process_status{process=\"a\"} 1"));
    assert!(text.contains("gugu_process_health_status{process=\"a\"} 1"));
    m.update(&[info("b", ProcessStatus::Stopped, None)]);
    let text = m.render();
    assert!(!text.contains("process=\"a\""));
    assert!(text.contains("gugu_processes 1"));
}

#[test]
fn fresh_metrics_show_zero_totals_and_no_series() {
    let m = Metrics::new().expect("metrics");
    let text = m.render();
    assert!(text.contains("gugu_processes 0"));
    assert!(text.contains("gugu_processes_running 0"));
    assert!(text.contains("gugu_processes_stopped 0"));
    assert!(text.contains("gugu_processes_failed 0"));
    assert!(!text.contains("gugu_process_status"));
    assert!(!text.contains("gugu_process_restarts_total"));
    assert!(!text.contains("gugu_process_uptime_seconds"));
    assert!(!text.contains("gugu_process_health_status"));
}

#[test]
fn series_hold_restarts_uptime_and_keep_unknown_health() {
    let mut m = Metrics::new().expect("metrics");
    m.update(&[info("a", ProcessStatus::Running, Some(false))]);
    m.update(&[info("a", ProcessStatus::Failed("x".to_string()), None)]);
    let text = m.render();
    assert!(text.contains("gugu_process_status{process=\"a\"} 4"));
    assert!(text.contains("gugu_process_restarts_total{process=\"a\"} 3"));
    assert!(text.contains("gugu_process_uptime_seconds{process=\"a\"} 42"));
    assert!(text.contains("gugu_process_health_status{process=\"a\"} 0"));
    assert!(text.contains("gugu_processes_failed 1"));
}

#[test]
fn repeated_names_keep_one_series_with_the_last_values() {
    let mut m = Metrics::new().expect("metrics");
    m.update(&[info("a", ProcessStatus::Stopped, None), info("a", ProcessStatus::Running, None)]);
    let text = m.render();
    assert!(text.contains("gugu_process_status{process=\"a\"} 1"));
    assert_eq!(text.matches("gugu_process_status{").count(), 1);
}
