use gugu_guard::cli::{
    client_log_line, empty_table_message, find_web_dir, format_uptime, list_row, other_pid, parse_env_pairs,
    parse_u32, pick_api_key, pid_conflict_message, pid_path, request_url, server_url, service_config_path,
    status_row, systemd_unit, task_command, web_dirs, ClientRequest, HttpMethod,
};
use gugu_guard::cli::{control_answer, service_launch_args, service_report, ControlAnswer, ServiceControl, ServiceEvent, ServicePhase};
use gugu_guard::config::{AppConfig, WebConfig};
use gugu_guard::process::{LogEntry, LogStream, ProcessInfo, ProcessStatus};

fn web(addr: Option<&str>, port: Option<u16>) -> WebConfig {
    WebConfig { addr: addr.map(String::from), port, cors_origins: Vec::new() }
}

#[test]
fn wildcard_address_is_reached_through_loopback() {
    assert_eq!(server_url(&web(Some("0.0.0.0"), Some(9090))), "http://127.0.0.1:9090");
    assert_eq!(server_url(&web(Some("10.0.0.2"), Some(8080))), "http://10.0.0.2:8080");
    assert_eq!(server_url(&web(None, None)), "http://127.0.0.1:9090");
}

#[test]
fn first_usable_web_directory_wins() {
    assert_eq!(web_dirs(), vec!["web", "../web", "../../web"]);
    assert_eq!(find_web_dir(&[false, true, true]).as_deref(), Some("../web"));
    assert_eq!(find_web_dir(&[true, false, false]).as_deref(), Some("web"));
    assert_eq!(find_web_dir(&[false, false, false]), None);
}

#[test]
fn command_line_key_wins_over_configured_and_environment() {
    let s = |x: &str| Some(x.to_string());
    assert_eq!(pick_api_key(s("cli"), s("cfg"), s("env")), s("cli"));
    assert_eq!(pick_api_key(None, s("cfg"), s("env")), s("cfg"));
    assert_eq!(pick_api_key(None, None, s("env")), s("env"));
    assert_eq!(pick_api_key(None, None, None), None);
}

#[test]
fn pid_file_naming_another_process() {
    assert_eq!(other_pid(" 123\n", 1), Some(123));
    assert_eq!(other_pid("123", 123), None);
    assert_eq!(other_pid("abc", 1), None);
    assert_eq!(other_pid("", 1), None);
    assert_eq!(other_pid("+7", 1), Some(7));
    assert_eq!(other_pid("4294967295", 1), Some(4294967295));
    assert_eq!(other_pid("4294967296", 1), None);
    assert_eq!(other_pid("12 34", 1), None);
}

#[test]
fn numbers_are_read_like_the_standard_parser() {
    let chars = |s: &str| s.chars().collect::<Vec<char>>();
    assert_eq!(parse_u32(&chars("0")), Some(0));
    assert_eq!(parse_u32(&chars("+")), None);
    assert_eq!(parse_u32(&chars("-1")), None);
    assert_eq!(parse_u32(&chars("00042")), Some(42));
}

#[test]
fn pid_conflict_is_explained() {
    assert_eq!(pid_conflict_message(42, "/run/gugu.pid"), "另一个守护进程正在运行 (PID: 42)，请先停止它或删除 /run/gugu.pid");
}

#[test]
fn pid_file_sits_next_to_the_configuration() {
    let mut config = AppConfig::default();
    assert_eq!(pid_path(&config, "/etc/gugu/gugu.toml"), "/etc/gugu/gugu.pid");
    config.daemon.pid_file = Some("run/g.pid".to_string());
    assert_eq!(pid_path(&config, "/etc/gugu/gugu.toml"), "/etc/gugu/run/g.pid");
    config.daemon.pid_file = Some("/var/run/g.pid".to_string());
    assert_eq!(pid_path(&config, "/etc/gugu/gugu.toml"), "/var/run/g.pid");
}

#[test]
fn service_reads_the_configuration_after_dash_c() {
    let v = |xs: &[&str]| xs.iter().map(|s| s.to_string()).collect::<Vec<String>>();
    assert_eq!(service_config_path(&v(&["svc", "-c", "/etc/g.toml"])), "/etc/g.toml");
    assert_eq!(service_config_path(&v(&["-c", "a.toml", "-c", "b.toml"])), "a.toml");
    assert_eq!(service_config_path(&v(&["svc", "-c"])), "gugu.toml");
    assert_eq!(service_config_path(&v(&[])), "gugu.toml");
}

#[test]
fn uptime_is_shown_as_hours_minutes_seconds() {
    assert_eq!(format_uptime(0), "00:00:00");
    assert_eq!(format_uptime(3661), "01:01:01");
    assert_eq!(format_uptime(59), "00:00:59");
    assert_eq!(format_uptime(360_000), "100:00:00");
    assert_eq!(format_uptime(-5), "00:00:-5");
}

fn info() -> ProcessInfo {
    ProcessInfo {
        name: "web".to_string(),
        command: "node".to_string(),
        args: vec!["app.js".to_string(), "--port".to_string(), "80".to_string()],
        status: ProcessStatus::Failed("boom".to_string()),
        pid: Some(4321),
        restart_count: 2,
        auto_start: true,
        auto_restart: false,
        has_health_check: false,
        unhealthy_restart: false,
        healthy: None,
        started_at: None,
        uptime_secs: Some(125),
        group: None,
    }
}

#[test]
fn status_table_row() {
    assert_eq!(status_row(&info()), vec!["web", "失败: boom", "4321", "00:02:05", "2"]);
    let mut p = info();
    p.pid = None;
    p.uptime_secs = None;
    p.status = ProcessStatus::Stopped;
    assert_eq!(status_row(&p), vec!["web", "已停止", "", "", "2"]);
}

#[test]
fn list_table_row() {
    assert_eq!(list_row(&info()), vec!["web", "node app.js --port 80", "是", "否"]);
    let mut p = info();
    p.args = Vec::new();
    assert_eq!(list_row(&p)[1], "node");
    assert_eq!(empty_table_message(), "暂无进程，使用 gugu add 添加进程");
}

#[test]
fn environment_items_later_ones_win() {
    let items: Vec<String> = ["A=1", "B=2=3", "C", "A=4", "=x"].iter().map(|s| s.to_string()).collect();
    let env = parse_env_pairs(&items);
    assert_eq!(env.get("A").map(String::as_str), Some("4"));
    assert_eq!(env.get("B").map(String::as_str), Some("2=3"));
    assert_eq!(env.get("C"), None);
    assert_eq!(env.get("").map(String::as_str), Some("x"));
    assert_eq!(env.len(), 3);
}

#[test]
fn client_requests_go_to_the_api() {
    let base = "http://h:1";
    let r = |c: ClientRequest| request_url(base, &c);
    assert_eq!(r(ClientRequest::Status), (HttpMethod::Get, "http://h:1/api/v1/processes".to_string()));
    assert_eq!(r(ClientRequest::List), (HttpMethod::Get, "http://h:1/api/v1/processes".to_string()));
    assert_eq!(r(ClientRequest::Start("a".into())), (HttpMethod::Post, "http://h:1/api/v1/processes/a/start".to_string()));
    assert_eq!(r(ClientRequest::Stop("a".into())), (HttpMethod::Post, "http://h:1/api/v1/processes/a/stop".to_string()));
    assert_eq!(r(ClientRequest::Restart("a".into())), (HttpMethod::Post, "http://h:1/api/v1/processes/a/restart".to_string()));
    assert_eq!(r(ClientRequest::Add("a".into())), (HttpMethod::Post, "http://h:1/api/v1/processes/a".to_string()));
    assert_eq!(r(ClientRequest::Remove("a".into())), (HttpMethod::Delete, "http://h:1/api/v1/processes/a".to_string()));
    assert_eq!(r(ClientRequest::Logs("a".into(), 50)), (HttpMethod::Get, "http://h:1/api/v1/processes/a/logs?lines=50".to_string()));
    assert_eq!(r(ClientRequest::Reload), (HttpMethod::Post, "http://h:1/api/v1/reload".to_string()));
}

#[test]
fn client_prints_log_lines_with_clock_time() {
    let e = LogEntry { timestamp: 3_723_000_000, stream: LogStream::Stderr, line: "x".to_string(), process_name: None };
    assert_eq!(client_log_line(&e), "[01:02:03] [ERR] x");
}

#[test]
fn systemd_unit_starts_the_daemon() {
    let unit = systemd_unit("/usr/bin/gugu", "/etc/gugu/gugu.toml");
    assert_eq!(
        unit,
        "[Unit]\nDescription=咕咕鸽进程守护 (GuguGuard)\nAfter=network.target\n\n[Service]\nType=simple\nExecStart=/usr/bin/gugu run -c /etc/gugu/gugu.toml\nRestart=on-failure\nRestartSec=5\nKillSignal=SIGTERM\nTimeoutStopSec=30\nWorkingDirectory=/etc/gugu\n\n[Install]\nWantedBy=multi-user.target\n"
    );
}

#[test]
fn scheduled_task_quotes_its_paths() {
    assert_eq!(task_command(r"C:\gugu.exe", r"C:\gugu.toml"), "\"C:\\gugu.exe\" run -c \"C:\\gugu.toml\"");
}

#[test]
fn service_is_launched_in_service_mode() {
    assert_eq!(service_launch_args(r"C:\g.toml"), vec!["run", "-c", r"C:\g.toml", "--mode", "service"]);
}

#[test]
fn service_controls_and_reports() {
    assert_eq!(control_answer(ServiceControl::Stop), (ControlAnswer::NoError, true));
    assert_eq!(control_answer(ServiceControl::Interrogate), (ControlAnswer::NoError, false));
    assert_eq!(control_answer(ServiceControl::Other), (ControlAnswer::NotImplemented, false));
    let r = service_report(ServiceEvent::Registered);
    assert_eq!((r.phase, r.accepts_stop, r.exit_code, r.wait_hint_secs), (ServicePhase::StartPending, false, 0, 5));
    let r = service_report(ServiceEvent::CoreStarted);
    assert_eq!((r.phase, r.accepts_stop), (ServicePhase::Running, true));
    let r = service_report(ServiceEvent::CoreFailed);
    assert_eq!((r.phase, r.exit_code), (ServicePhase::Stopped, 1));
    let r = service_report(ServiceEvent::StopRequested);
    assert_eq!((r.phase, r.wait_hint_secs), (ServicePhase::StopPending, 10));
    let r = service_report(ServiceEvent::CoreStopped);
    assert_eq!((r.phase, r.exit_code), (ServicePhase::Stopped, 0));
}

#[test]
fn pid_file_of_a_bare_configuration_name() {
    let mut config = AppConfig::default();
    assert_eq!(pid_path(&config, "gugu.toml"), "gugu.pid");
    config.daemon.pid_file = Some("g.pid".to_string());
    assert!(pid_path(&config, "conf/gugu.toml").ends_with("g.pid"));
}

#[test]
fn systemd_unit_works_in_the_configuration_directory() {
    let unit = systemd_unit("/usr/bin/gugu", "/etc/gugu/gugu.toml");
    assert!(unit.contains("ExecStart=/usr/bin/gugu run -c /etc/gugu/gugu.toml\n"));
    assert!(unit.contains("WorkingDirectory=/etc/gugu\n"));
    assert!(systemd_unit("/usr/bin/gugu", "/gugu.toml").contains("WorkingDirectory=/\n"));
}

#[test]
fn systemd_unit_of_a_bare_configuration_name() {
    assert!(systemd_unit("/usr/bin/gugu", "gugu.toml").contains("WorkingDirectory=\n"));
}
