use gugu_guard::config::{AppConfig, HealthCheckConfig, HealthCheckType, ProcessConfig};
use gugu_guard::error::GuguError;
use gugu_guard::manager::{
    health_probe_address, restarts_after_checks, start, topological_sort, ExitObservation, HealthProbe, ReloadAction,
};
use gugu_guard::process::{ManagedProcess, ProcessStatus};
use gugu_guard::strmap::StrMap;

fn pc(command: &str, deps: &[&str], auto_start: bool) -> ProcessConfig {
    ProcessConfig {
        command: command.to_string(),
        args: Vec::new(),
        working_dir: None,
        env: StrMap::new(),
        auto_start,
        auto_restart: true,
        max_restarts: 2,
        restart_delay_secs: 1,
        stop_command: None,
        stop_timeout_secs: 10,
        health_check: None,
        unhealthy_restart: false,
        depends_on: deps.iter().map(|s| s.to_string()).collect(),
        group: None,
        max_log_size_mb: None,
        stdout_log: None,
        stderr_log: None,
    }
}

fn config(items: Vec<(&str, ProcessConfig)>) -> AppConfig {
    let mut c = AppConfig::default();
    for (k, v) in items {
        c.processes.insert(k.to_string(), v);
    }
    c
}

#[test]
fn start_registers_configured_processes_stopped() {
    let s = start(&config(vec![("a", pc("x", &[], true)), ("b", pc("y", &[], false))]), None);
    assert_eq!(s.len(), 2);
    let snap = s.snapshot();
    assert_eq!(snap.names(), vec!["a", "b"]);
    assert_eq!(snap.find("b").unwrap().status, ProcessStatus::Stopped);
    assert!(snap.find("zzz").is_none());
}

#[test]
fn relative_paths_follow_the_configuration_file() {
    let mut p = pc("x", &[], false);
    p.working_dir = Some("app".to_string());
    p.stdout_log = Some("out.log".to_string());
    let mut c = config(vec![("a", p)]);
    c.daemon.log_dir = Some("logs".to_string());
    let s = start(&c, Some("/srv/gugu/gugu.toml".to_string()));
    let cfg = s.process_config("a").unwrap();
    assert_eq!(cfg.working_dir.as_deref(), Some("/srv/gugu/app"));
    assert_eq!(cfg.stdout_log.as_deref(), Some("/srv/gugu/logs/out.log"));
}

#[test]
fn unknown_names_are_refused() {
    let mut s = start(&config(vec![("a", pc("x", &[], false))]), None);
    let e = s.start_request("nonexistent").unwrap_err();
    assert!(e.to_string().contains("nonexistent"));
    assert!(matches!(s.stop_request("nonexistent"), Err(GuguError::ProcessNotFound(_))));
    assert!(matches!(s.restart_request("nonexistent"), Err(GuguError::ProcessNotFound(_))));
    assert!(matches!(s.remove_request("nonexistent"), Err(GuguError::ProcessNotFound(_))));
}

#[test]
fn start_then_stop_goes_through_the_states() {
    let mut s = start(&config(vec![("a", pc("x", &[], false))]), None);
    assert!(matches!(s.stop_request("a"), Err(GuguError::NotRunning(_))));
    let i = s.start_request("a").unwrap();
    assert_eq!(*s.process_at(i).status(), ProcessStatus::Starting);
    assert!(matches!(s.start_request("a"), Err(GuguError::AlreadyRunning(_))));
    s.start_succeeded(i, Some(77), 1_000_000);
    assert_eq!(s.process_at(i).pid(), Some(77));
    assert!(s.process_at(i).is_running());
    assert_eq!(s.stop_request("a").unwrap(), i);
    s.mark_stopped(i);
    assert_eq!(*s.process_at(i).status(), ProcessStatus::Stopped);
    assert_eq!(s.process_at(i).pid(), None);
}

#[test]
fn failed_launch_reports_the_reason() {
    let mut s = start(&config(vec![("a", pc("x", &[], false))]), None);
    let i = s.start_request("a").unwrap();
    let e = s.start_failed(i, "no such file".to_string());
    assert_eq!(e.to_string(), "启动进程 'a' 失败: no such file");
    assert_eq!(*s.process_at(i).status(), ProcessStatus::Failed("no such file".to_string()));
}

#[test]
fn adding_checks_name_and_configuration() {
    let mut s = start(&config(vec![("a", pc("x", &[], false))]), None);
    let e = s.add_request("a", &pc("y", &[], false)).unwrap_err();
    assert_eq!(e.to_string(), "配置错误: 进程 'a' 已存在");
    assert!(s.add_request("b", &pc("  ", &[], false)).is_err());
    assert!(s.add_request("b", &pc("y", &[], false)).is_ok());
    s.insert(ManagedProcess::new("b".to_string(), pc("y", &[], false)));
    assert_eq!(s.snapshot().names(), vec!["a", "b"]);
}

#[test]
fn renaming_to_an_existing_name_is_refused() {
    let mut s = start(&config(vec![("a", pc("x", &[], false)), ("b", pc("y", &[], false))]), None);
    let (i, restart) = s.update_request("a", &pc("x2", &[], false), false).unwrap();
    assert!(!restart);
    let e = s.apply_update(i, pc("x2", &[], false), Some("b".to_string())).unwrap_err();
    assert_eq!(e.to_string(), "配置错误: 进程 'b' 已存在");
    assert!(s.apply_update(i, pc("x3", &[], false), Some("c".to_string())).is_ok());
    assert_eq!(s.snapshot().names(), vec!["c", "b"]);
    assert_eq!(s.process_config("c").unwrap().command, "x3");
}

#[test]
fn running_process_restarts_only_when_launch_settings_change() {
    let mut s = start(&config(vec![("a", pc("x", &[], false))]), None);
    let i = s.start_request("a").unwrap();
    s.start_succeeded(i, Some(1), 0);
    let mut same_launch = pc("x", &[], false);
    same_launch.max_restarts = 9;
    assert_eq!(s.update_request("a", &same_launch, false).unwrap(), (i, false));
    assert_eq!(s.update_request("a", &same_launch, true).unwrap(), (i, true));
    assert_eq!(s.update_request("a", &pc("other", &[], false), false).unwrap(), (i, true));
}

#[test]
fn removing_drops_the_process() {
    let mut s = start(&config(vec![("a", pc("x", &[], false)), ("b", pc("y", &[], false))]), None);
    let (i, running) = s.remove_request("a").unwrap();
    assert!(!running);
    let p = s.remove_at(i);
    assert_eq!(p.name(), "a");
    assert_eq!(s.snapshot().names(), vec!["b"]);
}

#[test]
fn crashed_child_is_restarted_up_to_the_limit() {
    let mut s = start(&config(vec![("a", pc("x", &[], false))]), None);
    for round in 0..2 {
        let i = s.find("a").unwrap();
        assert!(s.begin_start_at(i).is_ok());
        s.start_succeeded(i, Some(1), 0);
        let delay = s.child_gone(i, ExitObservation::Exited);
        assert_eq!(delay, Some(std::time::Duration::from_secs(1)), "round {round}");
        assert_eq!(*s.process_at(i).status(), ProcessStatus::Restarting);
    }
    let i = s.find("a").unwrap();
    s.begin_start_at(i).unwrap();
    s.start_succeeded(i, Some(1), 0);
    assert_eq!(s.child_gone(i, ExitObservation::Exited), None);
    assert_eq!(*s.process_at(i).status(), ProcessStatus::Stopped);
    assert_eq!(s.process_at(i).crash_restart_count(), 2);
}

#[test]
fn unreadable_child_state_is_a_failure() {
    let mut p = pc("x", &[], false);
    p.auto_restart = false;
    let mut s = start(&config(vec![("a", p)]), None);
    let i = s.start_request("a").unwrap();
    s.start_succeeded(i, Some(1), 0);
    assert_eq!(s.child_gone(i, ExitObservation::QueryFailed), None);
    assert_eq!(*s.process_at(i).status(), ProcessStatus::Failed("检查进程状态失败".to_string()));
}

#[test]
fn health_checks_fall_due_by_interval() {
    let mut p = pc("x", &[], false);
    p.health_check = Some(HealthCheckConfig {
        check_type: HealthCheckType::Tcp { host: None, port: 3000 },
        interval_secs: 10,
        timeout_secs: 3,
    });
    let mut s = start(&config(vec![("a", p), ("b", pc("y", &[], false))]), None);
    assert!(s.due_health_checks(0).is_empty());
    let i = s.start_request("a").unwrap();
    s.start_succeeded(i, Some(1), 0);
    let probes = s.due_health_checks(1_000);
    assert_eq!(probes.len(), 1);
    assert_eq!(probes[0].name, "a");
    assert!(s.due_health_checks(5_000).is_empty());
    assert_eq!(s.due_health_checks(11_000).len(), 1);
    assert!(matches!(s.health_request("b"), Err(GuguError::ConfigError(ref m)) if m == "该进程未配置健康检查"));
    s.record_health(i, false);
    assert_eq!(s.process_at(i).healthy(), Some(false));
    assert_eq!(health_probe_address(3000), "127.0.0.1:3000");
}

#[test]
fn reload_keeps_adds_and_drops() {
    let mut s = start(&config(vec![("a", pc("x", &[], false)), ("gone", pc("y", &[], false))]), None);
    let i = s.start_request("gone").unwrap();
    s.start_succeeded(i, Some(5), 0);
    let actions = s.reload(&config(vec![("a", pc("x", &[], false)), ("new", pc("z", &[], true))]));
    assert_eq!(s.snapshot().names(), vec!["a", "new"]);
    assert!(actions.iter().any(|a| matches!(a, ReloadAction::Stop(n) if n == "gone")));
    assert!(actions.iter().any(|a| matches!(a, ReloadAction::Start(n) if n == "new")));
    assert!(matches!(s.reload_path(), Err(GuguError::ConfigError(ref m)) if m == "未配置配置文件路径"));
}

#[test]
fn startup_follows_dependencies_and_shutdown_reverses_it() {
    let s = start(
        &config(vec![("web", pc("w", &["db"], true)), ("db", pc("d", &[], true)), ("cache", pc("c", &["db"], true))]),
        None,
    );
    let up = s.startup_order();
    let pos = |n: &str| up.iter().position(|x| x == n).unwrap();
    assert!(pos("db") < pos("web"));
    assert!(pos("db") < pos("cache"));
    let mut down = s.shutdown_order();
    down.reverse();
    assert_eq!(down, up);
}

#[test]
fn configuration_is_written_back_as_held() {
    let s = start(&config(vec![("a", pc("x", &[], false))]), Some("/srv/g.toml".to_string()));
    let c = s.to_app_config();
    assert_eq!(c.processes.len(), 1);
    assert_eq!(c.processes.key_at(0), "a");
    assert_eq!(s.config_path().map(String::as_str), Some("/srv/g.toml"));
    assert_eq!(s.reload_path().unwrap(), "/srv/g.toml");
}

#[test]
fn cycle_report_names_every_process_that_cannot_start() {

    let c = config(vec![
        ("a", pc("x", &["b"], false)),
        ("free", pc("f", &[], false)),
        ("b", pc("y", &["a"], false)),
        ("after", pc("z", &["a"], false)),
    ]);
    let err = topological_sort(&c.processes).unwrap_err();
    assert_eq!(err.to_string(), "循环依赖检测: 检测到循环依赖: a, b, after");
}

#[test]
fn failed_checks_restart_only_processes_that_ask_for_it() {
    let probe = |name: &str, restart: bool| HealthProbe {
        name: name.to_string(),
        config: HealthCheckConfig { check_type: HealthCheckType::Tcp { host: None, port: 80 }, interval_secs: 10, timeout_secs: 3 },
        unhealthy_restart: restart,
    };
    let probes = vec![probe("a", true), probe("b", true), probe("c", false), probe("d", true)];
    assert_eq!(restarts_after_checks(&probes, &vec![false, true, false, false]), vec!["a", "d"]);
    assert!(restarts_after_checks(&probes, &vec![true, true, true, true]).is_empty());
}
