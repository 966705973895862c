use gugu_guard::config::path_to_forward_slashes;
use gugu_guard::config::resolve_relative_path;
use gugu_guard::config::strip_unc_prefix;
use gugu_guard::config::AppConfig;
use gugu_guard::config::HealthCheckConfig;
use gugu_guard::config::HealthCheckType;
use gugu_guard::config::ProcessConfig;
use gugu_guard::strmap::StrMap;

fn minimal_config() -> ProcessConfig {
    ProcessConfig {
        command: "echo".to_string(),
        args: Vec::new(),
        working_dir: None,
        env: StrMap::new(),
        auto_start: true,
        auto_restart: true,
        max_restarts: 3,
        restart_delay_secs: 5,
        stop_command: None,
        stop_timeout_secs: 10,
        health_check: None,
        unhealthy_restart: false,
        depends_on: Vec::new(),
        group: None,
        max_log_size_mb: None,
        stdout_log: None,
        stderr_log: None,
    }
}

#[test]
fn rejects_empty_command() {
    let mut config = minimal_config();
    config.command = String::new();

    let err = config.validate().unwrap_err();
    assert!(!err.to_string().is_empty(), "空命令应返回有意义的错误信息");
}

#[test]
fn rejects_tcp_health_check_with_port_zero() {
    let mut config = minimal_config();
    config.health_check = Some(HealthCheckConfig {
        check_type: HealthCheckType::Tcp { host: None, port: 0 },
        interval_secs: 10,
        timeout_secs: 3,
    });

    assert!(config.validate().is_err(), "TCP 健康检查端口为 0 应验证失败");
}

#[test]
fn rejects_http_health_check_with_empty_url() {
    let mut config = minimal_config();
    config.health_check = Some(HealthCheckConfig {
        check_type: HealthCheckType::Http { url: "  ".to_string() },
        interval_secs: 10,
        timeout_secs: 3,
    });

    assert!(config.validate().is_err(), "HTTP 健康检查 URL 为空白应验证失败");
}

#[test]
fn rejects_health_check_with_zero_interval() {
    let mut config = minimal_config();
    config.health_check = Some(HealthCheckConfig {
        check_type: HealthCheckType::Tcp { host: None, port: 8080 },
        interval_secs: 0,
        timeout_secs: 3,
    });

    assert!(config.validate().is_err(), "健康检查间隔为 0 应验证失败");
}

#[test]
fn rejects_health_check_with_zero_timeout() {
    let mut config = minimal_config();
    config.health_check = Some(HealthCheckConfig {
        check_type: HealthCheckType::Tcp { host: None, port: 8080 },
        interval_secs: 10,
        timeout_secs: 0,
    });

    assert!(config.validate().is_err(), "健康检查超时为 0 应验证失败");
}

#[test]
fn accepts_valid_config_with_health_check() {
    let mut config = minimal_config();
    config.health_check = Some(HealthCheckConfig {
        check_type: HealthCheckType::Tcp { host: Some("localhost".to_string()), port: 8080 },
        interval_secs: 10,
        timeout_secs: 3,
    });

    assert!(config.validate().is_ok(), "有效配置应通过验证");
}

#[test]
fn defaults_to_wildcard_9090() {
    let config = AppConfig::default();
    assert_eq!(config.server_addr(), "0.0.0.0:9090", "默认地址应为 0.0.0.0:9090");
}

#[test]
fn joins_command_with_args() {
    let mut config = minimal_config();
    config.args = vec!["app.js".to_string(), "--port".to_string(), "3000".to_string()];

    assert_eq!(config.full_command(), "echo app.js --port 3000", "应拼接命令和参数");
}

#[test]
fn returns_command_alone_when_no_args() {
    let config = minimal_config();
    assert_eq!(config.full_command(), "echo", "无参数时仅返回命令");
}

#[test]
fn ignores_non_runtime_field_changes() {
    let a = minimal_config();
    let mut b = a.clone();
    b.auto_start = false;

    assert!(a.runtime_fields_eq(&b), "非运行时字段变更不应影响相等性");
}

#[test]
fn detects_runtime_field_changes() {
    let a = minimal_config();
    let mut b = a.clone();
    b.command = "python".to_string();

    assert!(!a.runtime_fields_eq(&b), "运行时字段变更应被检测");
}

#[test]
fn identical_configs_are_equal() {
    let a = minimal_config();
    let b = a.clone();
    assert!(a.runtime_fields_eq(&b), "相同配置应相等");
}

#[test]
fn converts_backslashes_to_forward_slashes() {
    let mut config = minimal_config();
    config.working_dir = Some(r"path\to\dir".to_string());
    config.stdout_log = Some(r"logs\out.log".to_string());
    config.stderr_log = Some(r"logs\err.log".to_string());
    config.normalize_paths();

    assert_eq!(config.working_dir.unwrap(), "path/to/dir", "working_dir 反斜杠应转为正斜杠");
    assert_eq!(config.stdout_log.unwrap(), "logs/out.log", "stdout_log 反斜杠应转为正斜杠");
}

#[test]
fn keeps_absolute_path_unchanged() {
    let result = resolve_relative_path("/absolute/path", "/base");
    assert_eq!(result, "/absolute/path", "绝对路径应保持不变");
}

#[test]
fn joins_relative_path_with_base() {
    let result = resolve_relative_path("relative/path", "/base");
    assert_eq!(result, "/base/relative/path", "相对路径应与 base 拼接");
}

#[test]
fn keeps_regular_path_unchanged() {
    let result = strip_unc_prefix(r"C:\Users\test");
    assert_eq!(result, r"C:\Users\test", "常规路径应保持不变");
}

#[test]
fn strips_extended_prefix() {
    let result = strip_unc_prefix(r"\\?\C:\Users\test");
    assert_eq!(result, r"C:\Users\test", r"应去除 \\?\ 前缀");
}

#[test]
fn converts_unc_prefix_to_standard() {
    let result = strip_unc_prefix(r"\\?\UNC\server\share");
    assert_eq!(result, r"\\server\share", r"应将 \\?\UNC 转为 \\");
}

#[test]
fn converts_backslashes() {
    assert_eq!(path_to_forward_slashes(r"a\b\c.txt"), "a/b/c.txt", "反斜杠应转为正斜杠");
}

#[test]
fn validation_reports_the_first_problem_in_words() {
    let mut config = minimal_config();
    config.command = "   ".to_string();
    let err = config.validate().unwrap_err();
    assert!(err.to_string().starts_with("配置错误: "));
}

#[test]
fn normalizing_twice_changes_nothing_more() {
    let mut config = minimal_config();
    config.working_dir = Some(r"a\b".to_string());
    config.normalize_paths();
    let once = config.working_dir.clone();
    config.normalize_paths();
    assert_eq!(config.working_dir, once);
}

#[test]
fn uses_custom_addr_and_port() {
    let mut config = AppConfig::default();
    config.daemon.web.addr = Some("192.168.1.1".to_string());
    config.daemon.web.port = Some(8080);
    assert_eq!(config.server_addr(), "192.168.1.1:8080");
}

#[test]
fn missing_address_means_loopback() {
    let mut config = AppConfig::default();
    config.daemon.web.addr = None;
    config.daemon.web.port = None;
    assert_eq!(config.server_addr(), "127.0.0.1:9090");
}

#[test]
fn working_directory_change_is_a_launch_change() {
    let mut a = minimal_config();
    a.working_dir = Some("/srv/a".to_string());
    let mut b = a.clone();
    assert!(a.runtime_fields_eq(&b));
    b.working_dir = Some("/srv/b".to_string());
    assert!(!a.runtime_fields_eq(&b));
    b.working_dir = None;
    assert!(!a.runtime_fields_eq(&b));
}
